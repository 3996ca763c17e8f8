use vstd::prelude::*;
use vstd::string::{StrSliceExecFns, StringExecFns};
use crate::text::{is_white_space, lower_of, lowercase_text, trim_of, trim_text, alphanumerics, normalize_identifier_label};
use crate::headers::{find_key, header_keys, key_view, build_header_index_map, lookup_key};
use crate::headers::{views, holds_text};
use crate::workbook::{join_with, join_strings};
use crate::dataset::FacultyProgramMembership;
use crate::index::pairs_view;

verus! {

/// The runs of characters outside white space in `s`, in order, as
/// `str::split_whitespace` cuts them.
pub open spec fn words_of(s: Seq<char>) -> Seq<Seq<char>>
    decreases s.len(),
{
    if s.len() == 0 {
        seq![]
    } else if is_white_space(s.last()) {
        words_of(s.drop_last())
    } else if s.len() >= 2 && !is_white_space(s[s.len() - 2]) {
        let w = words_of(s.drop_last());
        w.drop_last().push(w.last().push(s.last()))
    } else {
        words_of(s.drop_last()).push(seq![s.last()])
    }
}

/// Relies on `str::split_whitespace`: the runs of characters outside Unicode white
/// space, in order.
#[verifier::external_body]
fn split_words(s: &str) -> (r: Vec<String>)
    ensures
        views(r@) == words_of(s@),
{
    s.split_whitespace().map(|w| w.to_string()).collect()
}

/// The non-empty words of `ws`.
pub open spec fn non_empty_words(ws: Seq<Seq<char>>) -> Seq<Seq<char>>
    decreases ws.len(),
{
    if ws.len() == 0 {
        seq![]
    } else if ws.last().len() > 0 {
        non_empty_words(ws.drop_last()).push(ws.last())
    } else {
        non_empty_words(ws.drop_last())
    }
}

/// An identifying value as compared between tables: its words joined by single
/// spaces, in lower case.
pub open spec fn normalized_value(v: Seq<char>) -> Seq<char> {
    lower_of(join_with(non_empty_words(words_of(v)), " "@))
}

/// An identifying value as compared between tables: its words joined by single
/// spaces, in lower case.
pub fn normalize_identifier_value(value: &str) -> (r: String)
    ensures
        r@ == normalized_value(value@),
{
    let words = split_words(value);
    let mut kept: Vec<String> = Vec::new();
    let mut k: usize = 0;
    while k < words.len()
        invariant
            k <= words.len(),
            views(kept@) == non_empty_words(views(words@).subrange(0, k as int)),
        decreases words.len() - k,
    {
        let ghost before = views(kept@);
        proof {
            assert(views(words@).subrange(0, k as int + 1).drop_last() =~= views(words@).subrange(0, k as int));
        }
        if words[k].as_str().unicode_len() > 0 {
            kept.push(words[k].clone());
            assert(views(kept@) =~= before.push(words@[k as int]@));
        }
        k = k + 1;
    }
    assert(views(words@).subrange(0, words.len() as int) =~= views(words@));
    let joined = join_strings(&kept, " ");
    lowercase_text(joined.as_str())
}

/// The key of a list of identifying values: the normalized values joined by `|`,
/// or `None` where there are none or one of them is blank.
pub open spec fn key_of(values: Seq<Option<Seq<char>>>) -> Option<Seq<char>> {
    if values.len() == 0 || exists|i: int|
        0 <= i < values.len() && (#[trigger] values[i] is None || normalized_value(values[i]->0).len() == 0) {
        None
    } else {
        Some(join_with(values.map_values(|v: Option<Seq<char>>| normalized_value(v->0)), "|"@))
    }
}

/// The key of a list of identifying values, as `key_of` states it.
pub fn identifier_key(values: &Vec<Option<String>>) -> (r: Option<String>)
    ensures
        r matches Some(k) ==> key_of(opt_views(values@)) == Some(k@),
        r is None ==> key_of(opt_views(values@)) is None,
{
    let ghost vs = opt_views(values@);
    if values.len() == 0 {
        return None;
    }
    let mut parts: Vec<String> = Vec::new();
    let mut i: usize = 0;
    while i < values.len()
        invariant
            i <= values.len(),
            vs == opt_views(values@),
            views(parts@) == vs.subrange(0, i as int).map_values(|v: Option<Seq<char>>| normalized_value(v->0)),
            forall|j: int| 0 <= j < i ==> !(#[trigger] vs[j] is None || normalized_value(vs[j]->0).len() == 0),
        decreases values.len() - i,
    {
        match &values[i] {
            None => {
                assert(vs[i as int] is None);
                return None;
            },
            Some(v) => {
                let n = normalize_identifier_value(v.as_str());
                if n.as_str().unicode_len() == 0 {
                    return None;
                }
                let ghost before = views(parts@);
                let ghost f = |v: Option<Seq<char>>| normalized_value(v->0);
                assert(vs[i as int] == Some(v@));
                parts.push(n);
                proof {
                    assert(views(parts@) =~= before.push(f(vs[i as int])));
                    assert(vs.subrange(0, i as int + 1).map_values(f) =~= vs.subrange(0, i as int).map_values(f).push(
                        f(vs[i as int]),
                    ));
                }
            },
        }
        i = i + 1;
    }
    assert(vs.subrange(0, values.len() as int) =~= vs);
    Some(join_strings(&parts, "|"))
}

/// The texts of a list of optional strings.
pub open spec fn opt_views(v: Seq<Option<String>>) -> Seq<Option<Seq<char>>> {
    v.map_values(|o: Option<String>| match o {
        Some(s) => Some(s@),
        None => None,
    })
}

/// The value recorded under `label` in identifying pairs, at its first entry.
pub open spec fn value_for(pairs: Seq<(Seq<char>, Seq<char>)>, label: Seq<char>) -> Option<Seq<char>>
    decreases pairs.len(),
{
    if pairs.len() == 0 {
        None
    } else {
        match value_for(pairs.drop_last(), label) {
            Some(v) => Some(v),
            None => if pairs.last().0 == label {
                Some(pairs.last().1)
            } else {
                None
            },
        }
    }
}

fn value_under(pairs: &Vec<(String, String)>, label: &String) -> (r: Option<String>)
    ensures
        match r {
            Some(v) => value_for(pairs_view(pairs@), label@) == Some(v@),
            None => value_for(pairs_view(pairs@), label@) is None,
        },
{
    let ghost pv = pairs_view(pairs@);
    let mut i: usize = 0;
    while i < pairs.len()
        invariant
            i <= pairs.len(),
            pv == pairs_view(pairs@),
            value_for(pv.subrange(0, i as int), label@) is None,
        decreases pairs.len() - i,
    {
        proof {
            assert(pv.subrange(0, i as int + 1).drop_last() =~= pv.subrange(0, i as int));
        }
        if pairs[i].0 == *label {
            proof {
                lemma_value_for_prefix(pv, i as int + 1, label@);
            }
            return Some(pairs[i].1.clone());
        }
        i = i + 1;
    }
    assert(pv.subrange(0, pairs.len() as int) =~= pv);
    None
}

proof fn lemma_value_for_prefix(pv: Seq<(Seq<char>, Seq<char>)>, k: int, label: Seq<char>)
    requires
        0 < k <= pv.len(),
        value_for(pv.subrange(0, k), label) is Some,
    ensures
        value_for(pv, label) == value_for(pv.subrange(0, k), label),
    decreases pv.len() - k,
{
    if k < pv.len() {
        assert(pv.subrange(0, k + 1).drop_last() =~= pv.subrange(0, k));
        lemma_value_for_prefix(pv, k + 1, label);
    } else {
        assert(pv.subrange(0, k) =~= pv);
    }
}

/// The key of a membership: its values under the labels of `order`.
pub open spec fn membership_key(m: FacultyProgramMembership, order: Seq<String>) -> Option<Seq<char>> {
    key_of(order.map_values(|l: String| value_for(pairs_view(m.identifiers@), l@)))
}

/// The key of a roster row: its cells in the columns `cols`, a missing cell
/// counting as absent.
pub open spec fn roster_key(row: Seq<String>, cols: Seq<usize>) -> Option<Seq<char>> {
    key_of(cols.map_values(|c: usize| if (c as int) < row.len() { Some(row[c as int]@) } else { None }))
}

fn membership_key_of(m: &FacultyProgramMembership, order: &Vec<String>) -> (r: Option<String>)
    ensures
        r matches Some(k) ==> membership_key(*m, order@) == Some(k@),
        r is None ==> membership_key(*m, order@) is None,
{
    let mut values: Vec<Option<String>> = Vec::new();
    let mut i: usize = 0;
    while i < order.len()
        invariant
            i <= order.len(),
            opt_views(values@) == order@.subrange(0, i as int).map_values(
                |l: String| value_for(pairs_view(m.identifiers@), l@),
            ),
        decreases order.len() - i,
    {
        let v = value_under(&m.identifiers, &order[i]);
        let ghost before = opt_views(values@);
        values.push(v);
        proof {
            assert(opt_views(values@) =~= before.push(value_for(pairs_view(m.identifiers@), order@[i as int]@)));
            assert(order@.subrange(0, i as int + 1).map_values(|l: String| value_for(pairs_view(m.identifiers@), l@))
                =~= order@.subrange(0, i as int).map_values(|l: String| value_for(pairs_view(m.identifiers@), l@)).push(
                value_for(pairs_view(m.identifiers@), order@[i as int]@),
            ));
        }
        i = i + 1;
    }
    assert(order@.subrange(0, order.len() as int) =~= order@);
    identifier_key(&values)
}

fn roster_key_of(row: &Vec<String>, cols: &Vec<usize>) -> (r: Option<String>)
    ensures
        r matches Some(k) ==> roster_key(row@, cols@) == Some(k@),
        r is None ==> roster_key(row@, cols@) is None,
{
    let mut values: Vec<Option<String>> = Vec::new();
    let mut i: usize = 0;
    while i < cols.len()
        invariant
            i <= cols.len(),
            opt_views(values@) == cols@.subrange(0, i as int).map_values(
                |c: usize| if (c as int) < row@.len() { Some(row@[c as int]@) } else { None },
            ),
        decreases cols.len() - i,
    {
        let c = cols[i];
        let v = if c < row.len() {
            Some(row[c].clone())
        } else {
            None
        };
        let ghost before = opt_views(values@);
        values.push(v);
        proof {
            let f = |c: usize| if (c as int) < row@.len() { Some(row@[c as int]@) } else { None };
            assert(opt_views(values@) =~= before.push(f(c)));
            assert(cols@.subrange(0, i as int + 1).map_values(f) =~= cols@.subrange(0, i as int).map_values(f).push(f(c)));
        }
        i = i + 1;
    }
    assert(cols@.subrange(0, cols.len() as int) =~= cols@);
    identifier_key(&values)
}

/// The rows of the memberships among the first `m` whose key is `k`.
pub open spec fn key_rows(ms: Seq<FacultyProgramMembership>, order: Seq<String>, k: Seq<char>, m: int) -> Set<usize>
    decreases m,
{
    if m <= 0 {
        Set::empty()
    } else {
        let s = key_rows(ms, order, k, m - 1);
        if membership_key(ms[m - 1], order) == Some(k) {
            s.insert(ms[m - 1].row_index)
        } else {
            s
        }
    }
}

/// The memberships among the first `m` whose key is `k`.
pub open spec fn key_count(ms: Seq<FacultyProgramMembership>, order: Seq<String>, k: Seq<char>, m: int) -> nat
    decreases m,
{
    if m <= 0 {
        0
    } else {
        key_count(ms, order, k, m - 1) + if membership_key(ms[m - 1], order) == Some(k) {
            1nat
        } else {
            0nat
        }
    }
}

/// The candidate rows that the first `n` roster rows name.
pub open spec fn roster_rows(
    ms: Seq<FacultyProgramMembership>,
    order: Seq<String>,
    roster: Seq<Vec<String>>,
    cols: Seq<usize>,
    n: int,
) -> Set<usize>
    decreases n,
{
    if n <= 0 {
        Set::empty()
    } else {
        let s = roster_rows(ms, order, roster, cols, n - 1);
        match roster_key(roster[n - 1]@, cols) {
            Some(k) => s + key_rows(ms, order, k, ms.len() as int),
            None => s,
        }
    }
}

/// The roster rows among the first `n` that have no key or match no membership.
pub open spec fn unmatched_rows(
    ms: Seq<FacultyProgramMembership>,
    order: Seq<String>,
    roster: Seq<Vec<String>>,
    cols: Seq<usize>,
    n: int,
) -> nat
    decreases n,
{
    if n <= 0 {
        0
    } else {
        unmatched_rows(ms, order, roster, cols, n - 1) + match roster_key(roster[n - 1]@, cols) {
            Some(k) => if key_count(ms, order, k, ms.len() as int) > 0 {
                0nat
            } else {
                1nat
            },
            None => 1nat,
        }
    }
}

/// The candidate rows that a roster names: a membership is chosen where its key,
/// its values under the labels of `order`, equals the key of some roster row, its
/// cells in the columns `cols`. Each row is listed once. Also returns the number of
/// roster rows that have no key or match no membership.
pub fn filter_rows_by_roster(
    memberships: &Vec<FacultyProgramMembership>,
    order: &Vec<String>,
    roster: &Vec<Vec<String>>,
    cols: &Vec<usize>,
) -> (r: (Vec<usize>, usize))
    ensures
        forall|a: int, b: int| 0 <= a < b < r.0.len() ==> r.0@[a] != r.0@[b],
        forall|x: usize|
            r.0@.contains(x) <==> roster_rows(memberships@, order@, roster@, cols@, roster.len() as int).contains(x),
        r.1 == unmatched_rows(memberships@, order@, roster@, cols@, roster.len() as int),
{
    let ghost ms = memberships@;
    let mut keys: Vec<Option<String>> = Vec::new();
    let mut j: usize = 0;
    while j < memberships.len()
        invariant
            j <= memberships.len(),
            ms == memberships@,
            keys.len() == j,
            forall|x: int| 0 <= x < j ==> opt_views(keys@)[x] == membership_key(#[trigger] ms[x], order@),
        decreases memberships.len() - j,
    {
        let k = membership_key_of(&memberships[j], order);
        keys.push(k);
        j = j + 1;
    }
    let mut rows: Vec<usize> = Vec::new();
    let mut unmatched: usize = 0;
    let mut q: usize = 0;
    while q < roster.len()
        invariant
            q <= roster.len(),
            ms == memberships@,
            keys.len() == ms.len(),
            forall|x: int| 0 <= x < ms.len() ==> opt_views(keys@)[x] == membership_key(#[trigger] ms[x], order@),
            forall|a: int, b: int| 0 <= a < b < rows.len() ==> rows@[a] != rows@[b],
            forall|x: usize| rows@.contains(x) <==> roster_rows(ms, order@, roster@, cols@, q as int).contains(x),
            unmatched == unmatched_rows(ms, order@, roster@, cols@, q as int),
            unmatched <= q,
        decreases roster.len() - q,
    {
        let rk = roster_key_of(&roster[q], cols);
        let ghost rows0 = rows@;
        let ghost before_set = roster_rows(ms, order@, roster@, cols@, q as int);
        assert(forall|x: usize| rows0.contains(x) <==> before_set.contains(x));
        match rk {
            None => {
                unmatched = unmatched + 1;
                proof {
                    assert(roster_rows(ms, order@, roster@, cols@, q as int + 1) == before_set);
                }
            },
            Some(k) => {
                let mut found = false;
                let mut j: usize = 0;
                while j < keys.len()
                    invariant
                        j <= keys.len(),
                        ms == memberships@,
                        q < roster.len(),
                        keys.len() == ms.len(),
                        forall|x: int| 0 <= x < ms.len() ==> opt_views(keys@)[x] == membership_key(#[trigger] ms[x], order@),
                        found <==> key_count(ms, order@, k@, j as int) > 0,
                        forall|a: int, b: int| 0 <= a < b < rows.len() ==> rows@[a] != rows@[b],
                        forall|x: usize|
                            rows@.contains(x) <==> (rows0.contains(x) || key_rows(ms, order@, k@, j as int).contains(x)),
                    decreases keys.len() - j,
                {
                    let same = match &keys[j] {
                        Some(mk) => *mk == k,
                        None => false,
                    };
                    assert(same == (membership_key(ms[j as int], order@) == Some(k@)));
                    let ghost before = rows@;
                    let ghost kr0 = key_rows(ms, order@, k@, j as int);
                    let ghost kr1 = key_rows(ms, order@, k@, j as int + 1);
                    if same {
                        found = true;
                        let row = memberships[j].row_index;
                        let present = crate::ranking::contains_index(&rows, row);
                        if !present {
                            rows.push(row);
                        }
                        proof {
                            assert(kr1 == kr0.insert(row));
                            assert forall|x: usize| rows@.contains(x) <==> (rows0.contains(x) || kr1.contains(x)) by {
                                assert(before.contains(x) <==> (rows0.contains(x) || kr0.contains(x)));
                                if !present {
                                    if rows@.contains(x) {
                                        let w = choose|w: int| 0 <= w < rows@.len() && rows@[w] == x;
                                        if w < before.len() {
                                            assert(before[w] == x);
                                        }
                                    }
                                    if before.contains(x) {
                                        let w = choose|w: int| 0 <= w < before.len() && before[w] == x;
                                        assert(rows@[w] == x);
                                    }
                                    assert(rows@[rows@.len() - 1] == row);
                                }
                            }
                            assert forall|a: int, b: int| 0 <= a < b < rows.len() implies rows@[a] != rows@[b] by {
                                if !present && b == rows.len() - 1 {
                                    assert(before[a] == rows@[a]);
                                    assert(before.contains(rows@[a]));
                                }
                            }
                        }
                    } else {
                        proof {
                            assert(kr1 == kr0);
                            assert forall|x: usize| rows@.contains(x) <==> (rows0.contains(x) || kr1.contains(x)) by {
                                assert(before.contains(x) <==> (rows0.contains(x) || kr0.contains(x)));
                            }
                        }
                    }
                    j = j + 1;
                }
                if !found {
                    unmatched = unmatched + 1;
                }
                proof {
                    let kr = key_rows(ms, order@, k@, ms.len() as int);
                    assert(roster_rows(ms, order@, roster@, cols@, q as int + 1) == before_set + kr);
                    assert forall|x: usize| rows@.contains(x) <==> (before_set + kr).contains(x) by {
                        assert(rows0.contains(x) <==> before_set.contains(x));
                    }
                }
            },
        }
        q = q + 1;
    }
    (rows, unmatched)
}

/// The form under which identifier names are compared: trimmed, in lower case.
pub open spec fn id_key(s: Seq<char>) -> Seq<char> {
    lower_of(trim_of(s))
}

/// Mapping pair `p` names a roster column for identifier `id`: its identifier name,
/// not blank, matches `id`, and its column label is not blank.
pub open spec fn pair_maps(p: (String, String), id: Seq<char>) -> bool {
    id_key(p.0@).len() > 0 && trim_of(p.1@).len() > 0 && id_key(p.0@) == id_key(id)
}

/// The trimmed roster column label that the first qualifying pair of `map[..k]`
/// gives identifier `id`.
pub open spec fn mapped_label(map: Seq<(String, String)>, id: Seq<char>, k: int) -> Option<Seq<char>>
    decreases k,
{
    if k <= 0 {
        None
    } else {
        match mapped_label(map, id, k - 1) {
            Some(l) => Some(l),
            None => if pair_maps(map[k - 1], id) {
                Some(trim_of(map[k - 1].1@))
            } else {
                None
            },
        }
    }
}

/// The first header among `headers[j..]` whose letters and digits, in lower case,
/// are `target`.
pub open spec fn first_alnum_match(headers: Seq<String>, target: Seq<char>, j: int) -> Option<usize>
    decreases headers.len() - j,
{
    if j < 0 || j >= headers.len() {
        None
    } else if lower_of(alphanumerics(headers[j]@)) == target {
        Some(j as usize)
    } else {
        first_alnum_match(headers, target, j + 1)
    }
}

/// The roster column that a trimmed label names: by its lower-case form among the
/// header labels, else the first header with the same letters and digits.
pub open spec fn roster_column(headers: Seq<String>, label: Seq<char>) -> Option<usize> {
    match find_key(header_keys(headers, headers.len() as int), lower_of(label), 0) {
        Some(c) => Some(c),
        None => if lower_of(alphanumerics(label)).len() > 0 {
            first_alnum_match(headers, lower_of(alphanumerics(label)), 0)
        } else {
            None
        },
    }
}

/// For the first `n` identifiers: `(position, roster column)` of those with a label
/// that names a column, and the positions of those with a label that names none.
pub open spec fn resolved_columns(
    ids: Seq<String>,
    map: Seq<(String, String)>,
    headers: Seq<String>,
    n: int,
) -> (Seq<(usize, usize)>, Seq<usize>)
    decreases n,
{
    if n <= 0 {
        (seq![], seq![])
    } else {
        let (found, missing) = resolved_columns(ids, map, headers, n - 1);
        match mapped_label(map, ids[n - 1]@, map.len() as int) {
            Some(l) => match roster_column(headers, l) {
                Some(c) => (found.push(((n - 1) as usize, c)), missing),
                None => (found, missing.push((n - 1) as usize)),
            },
            None => (found, missing),
        }
    }
}

/// The identifier names of `map[..k]` that are not blank and have a label, but
/// match no identifier of `ids`.
pub open spec fn unknown_names(ids: Seq<String>, map: Seq<(String, String)>, k: int) -> Seq<Seq<char>>
    decreases k,
{
    if k <= 0 {
        seq![]
    } else {
        let prev = unknown_names(ids, map, k - 1);
        let p = map[k - 1];
        if id_key(p.0@).len() > 0 && trim_of(p.1@).len() > 0 && !(exists|i: int|
            0 <= i < ids.len() && id_key(#[trigger] ids[i]@) == id_key(p.0@)) {
            prev.push(p.0@)
        } else {
            prev
        }
    }
}

/// Some identifier gets a roster column label.
pub open spec fn any_mapped(ids: Seq<String>, map: Seq<(String, String)>) -> bool {
    exists|i: int| 0 <= i < ids.len() && #[trigger] mapped_label(map, ids[i]@, map.len() as int) is Some
}

/// The roster columns of the identifiers, in the identifiers' order; the positions
/// of identifiers whose label names no roster column; and the mapped names that
/// match no identifier.
pub struct RosterColumns {
    pub columns: Vec<(usize, usize)>,
    pub missing_columns: Vec<usize>,
    pub unknown_identifiers: Vec<String>,
}

/// Why a roster cannot limit the candidates.
#[derive(Clone, Copy, Debug, PartialEq, Eq)]
pub enum RosterError {
    /// No identifier is mapped to a roster column.
    NoMappedIdentifiers,
    /// No mapped label names a column of the roster.
    NoRosterColumns,
}

fn key_text(s: &str) -> (r: String)
    ensures
        r@ == id_key(s@),
{
    let t = trim_text(s);
    lowercase_text(t.as_str())
}

fn label_for(map: &Vec<(String, String)>, id: &String) -> (r: Option<String>)
    ensures
        r matches Some(l) ==> mapped_label(map@, id@, map.len() as int) == Some(l@),
        r is None ==> mapped_label(map@, id@, map.len() as int) is None,
{
    let key = key_text(id.as_str());
    let mut k: usize = 0;
    while k < map.len()
        invariant
            k <= map.len(),
            key@ == id_key(id@),
            mapped_label(map@, id@, k as int) is None,
        decreases map.len() - k,
    {
        let raw = key_text(map[k].0.as_str());
        let label = trim_text(map[k].1.as_str());
        if raw.as_str().unicode_len() > 0 && label.as_str().unicode_len() > 0 && raw == key {
            proof {
                lemma_mapped_label_stays(map@, id@, k as int + 1, map.len() as int);
            }
            return Some(label);
        }
        k = k + 1;
    }
    None
}

proof fn lemma_mapped_label_stays(map: Seq<(String, String)>, id: Seq<char>, k: int, n: int)
    requires
        0 <= k <= n,
        mapped_label(map, id, k) is Some,
    ensures
        mapped_label(map, id, n) == mapped_label(map, id, k),
    decreases n - k,
{
    if n > k {
        lemma_mapped_label_stays(map, id, k, n - 1);
    }
}

fn find_roster_column(headers: &Vec<String>, map: &Vec<(String, usize)>, label: &String) -> (r: Option<usize>)
    requires
        key_view(map@) == header_keys(headers@, headers.len() as int),
    ensures
        r == roster_column(headers@, label@),
{
    let key = lowercase_text(label.as_str());
    match lookup_key(map, &key) {
        Some(c) => Some(c),
        None => {
            let target = normalize_identifier_label(label.as_str());
            if target.as_str().unicode_len() == 0 {
                return None;
            }
            assert(roster_column(headers@, label@) == first_alnum_match(headers@, target@, 0));
            let mut j: usize = 0;
            while j < headers.len()
                invariant
                    j <= headers.len(),
                    target@ == lower_of(alphanumerics(label@)),
                    roster_column(headers@, label@) == first_alnum_match(headers@, target@, 0),
                    first_alnum_match(headers@, target@, 0) == first_alnum_match(headers@, target@, j as int),
                decreases headers.len() - j,
            {
                let h = normalize_identifier_label(headers[j].as_str());
                if h == target {
                    return Some(j);
                }
                j = j + 1;
            }
            None
        },
    }
}

/// Resolves the roster columns of the identifier columns `ids` through `map`, pairs
/// of identifier name and roster column label. Fails with `NoMappedIdentifiers`
/// where no identifier gets a label, and with `NoRosterColumns` where no label
/// names a roster column.
pub fn resolve_roster_columns(ids: &Vec<String>, map: &Vec<(String, String)>, roster_headers: &Vec<String>) -> (r:
    Result<RosterColumns, RosterError>)
    ensures
        ({
            let (found, missing) = resolved_columns(ids@, map@, roster_headers@, ids.len() as int);
            if !any_mapped(ids@, map@) {
                r == Err::<RosterColumns, RosterError>(RosterError::NoMappedIdentifiers)
            } else if found.len() == 0 {
                r == Err::<RosterColumns, RosterError>(RosterError::NoRosterColumns)
            } else {
                r matches Ok(rc) && {
                    &&& rc.columns@ == found
                    &&& rc.missing_columns@ == missing
                    &&& views(rc.unknown_identifiers@) == unknown_names(ids@, map@, map.len() as int)
                }
            }
        }),
{
    let header_map = build_header_index_map(roster_headers);
    let mut found: Vec<(usize, usize)> = Vec::new();
    let mut missing: Vec<usize> = Vec::new();
    let mut any = false;
    let mut i: usize = 0;
    while i < ids.len()
        invariant
            i <= ids.len(),
            key_view(header_map@) == header_keys(roster_headers@, roster_headers.len() as int),
            (found@, missing@) == resolved_columns(ids@, map@, roster_headers@, i as int),
            any <==> exists|x: int| 0 <= x < i && #[trigger] mapped_label(map@, ids@[x]@, map.len() as int) is Some,
        decreases ids.len() - i,
    {
        match label_for(map, &ids[i]) {
            Some(l) => {
                any = true;
                match find_roster_column(roster_headers, &header_map, &l) {
                    Some(c) => found.push((i, c)),
                    None => missing.push(i),
                }
            },
            None => {},
        }
        i = i + 1;
    }
    if !any {
        return Err(RosterError::NoMappedIdentifiers);
    }
    if found.len() == 0 {
        return Err(RosterError::NoRosterColumns);
    }
    let mut unknown: Vec<String> = Vec::new();
    let mut k: usize = 0;
    while k < map.len()
        invariant
            k <= map.len(),
            views(unknown@) == unknown_names(ids@, map@, k as int),
        decreases map.len() - k,
    {
        let raw = key_text(map[k].0.as_str());
        let label = trim_text(map[k].1.as_str());
        if raw.as_str().unicode_len() > 0 && label.as_str().unicode_len() > 0 {
            let mut known = false;
            let mut x: usize = 0;
            while x < ids.len()
                invariant
                    x <= ids.len(),
                    raw@ == id_key(map@[k as int].0@),
                    known <==> exists|i: int| 0 <= i < x && id_key(#[trigger] ids@[i]@) == raw@,
                decreases ids.len() - x,
            {
                let key = key_text(ids[x].as_str());
                if key == raw {
                    known = true;
                }
                x = x + 1;
            }
            if !known {
                let ghost before = views(unknown@);
                unknown.push(map[k].0.clone());
                assert(views(unknown@) =~= before.push(map@[k as int].0@));
            }
        }
        k = k + 1;
    }
    Ok(RosterColumns { columns: found, missing_columns: missing, unknown_identifiers: unknown })
}

} // verus!
