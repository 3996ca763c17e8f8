use vstd::prelude::*;
use vstd::string::StrSliceExecFns;
use crate::text::{trim_of, lower_of, trim_text, lowercase_text, label_of, header_label};

verus! {

/// The indexes of `idxs[..k]` below `column_count`, each once, in first-seen order.
pub open spec fn selection(idxs: Seq<usize>, column_count: usize, k: int) -> Seq<usize>
    decreases k,
{
    if k <= 0 {
        seq![]
    } else {
        let prev = selection(idxs, column_count, k - 1);
        let i = idxs[k - 1];
        if i < column_count && !prev.contains(i) {
            prev.push(i)
        } else {
            prev
        }
    }
}

/// The chosen column indexes that exist, each once, in the order first given.
pub fn normalize_column_selection(indexes: &Vec<usize>, column_count: usize) -> (r: Vec<usize>)
    ensures
        r@ == selection(indexes@, column_count, indexes.len() as int),
{
    let mut r: Vec<usize> = Vec::new();
    let mut k: usize = 0;
    while k < indexes.len()
        invariant
            k <= indexes.len(),
            r@ == selection(indexes@, column_count, k as int),
        decreases indexes.len() - k,
    {
        let i = indexes[k];
        if i < column_count && !crate::ranking::contains_index(&r, i) {
            r.push(i);
        }
        k = k + 1;
    }
    r
}

/// The texts of a list of strings.
pub open spec fn views(v: Seq<String>) -> Seq<Seq<char>> {
    v.map_values(|s: String| s@)
}

/// Whether `list` holds a string equal to `v`.
pub(crate) fn holds_text(list: &Vec<String>, v: &String) -> (r: bool)
    ensures
        r == views(list@).contains(v@),
{
    let ghost vs = views(list@);
    let mut i: usize = 0;
    while i < list.len()
        invariant
            i <= list.len(),
            vs == views(list@),
            forall|k: int| 0 <= k < i ==> vs[k] != v@,
        decreases list.len() - i,
    {
        if list[i] == *v {
            assert(vs[i as int] == v@);
            return true;
        }
        i = i + 1;
    }
    false
}

/// The labels of the columns `idxs[..k]` that exist, the first of each label in any
/// case, in first-seen order; with the lower-case labels already taken.
pub open spec fn header_selection(headers: Seq<String>, idxs: Seq<usize>, k: int) -> (Seq<Seq<char>>, Seq<
    Seq<char>,
>)
    decreases k,
{
    if k <= 0 {
        (seq![], seq![])
    } else {
        let (labels, keys) = header_selection(headers, idxs, k - 1);
        let i = idxs[k - 1] as int;
        let label = label_of(headers, i);
        if i < headers.len() && !keys.contains(lower_of(label)) {
            (labels.push(label), keys.push(lower_of(label)))
        } else {
            (labels, keys)
        }
    }
}

/// The labels of the chosen columns that exist, each label once whatever its case.
pub fn indexes_to_headers(headers: &Vec<String>, indexes: &Vec<usize>) -> (r: Vec<String>)
    ensures
        views(r@) == header_selection(headers@, indexes@, indexes.len() as int).0,
{
    let mut r: Vec<String> = Vec::new();
    let mut keys: Vec<String> = Vec::new();
    let mut k: usize = 0;
    while k < indexes.len()
        invariant
            k <= indexes.len(),
            views(r@) == header_selection(headers@, indexes@, k as int).0,
            views(keys@) == header_selection(headers@, indexes@, k as int).1,
        decreases indexes.len() - k,
    {
        let i = indexes[k];
        if i < headers.len() {
            let label = header_label(headers, i);
            let key = lowercase_text(label.as_str());
            if !holds_text(&keys, &key) {
                let ghost (r0, k0) = (r@, keys@);
                r.push(label);
                keys.push(key);
                assert(views(r@) =~= views(r0).push(label@));
                assert(views(keys@) =~= views(k0).push(key@));
            }
        }
        k = k + 1;
    }
    r
}

/// Sorts `values` in increasing order and removes repeats.
pub fn sort_and_dedup(values: &mut Vec<usize>)
    ensures
        forall|a: int, b: int| 0 <= a < b < final(values)@.len() ==> final(values)@[a] < final(values)@[b],
        forall|x: usize| final(values)@.contains(x) <==> old(values)@.contains(x),
{
    let ghost orig = values@;
    let mut sorted: Vec<usize> = Vec::new();
    let mut k: usize = 0;
    while k < values.len()
        invariant
            values@ == orig,
            k <= values.len(),
            forall|a: int, b: int| 0 <= a < b < sorted@.len() ==> sorted@[a] < sorted@[b],
            forall|x: usize| sorted@.contains(x) <==> orig.subrange(0, k as int).contains(x),
        decreases values.len() - k,
    {
        let v = values[k];
        let mut p: usize = 0;
        while p < sorted.len() && sorted[p] < v
            invariant
                values@ == orig,
                k < values.len(),
                v == orig[k as int],
                p <= sorted.len(),
                forall|a: int| 0 <= a < p ==> sorted@[a] < v,
                forall|a: int, b: int| 0 <= a < b < sorted@.len() ==> sorted@[a] < sorted@[b],
                forall|x: usize| sorted@.contains(x) <==> orig.subrange(0, k as int).contains(x),
            decreases sorted.len() - p,
        {
            p = p + 1;
        }
        let ghost before = sorted@;
        assert(forall|x: usize| before.contains(x) <==> orig.subrange(0, k as int).contains(x));
        if p < sorted.len() && sorted[p] == v {
        } else {
            sorted.insert(p, v);
            proof {
                assert forall|a: int, b: int| 0 <= a < b < sorted@.len() implies sorted@[a] < sorted@[b] by {
                    if b < p {
                    } else if b == p {
                    } else if a < p {
                        assert(sorted@[b] == before[b - 1]);
                        assert(before[b - 1] >= before[p as int]);
                    } else if a == p {
                        assert(sorted@[b] == before[b - 1]);
                        if b - 1 > p {
                            assert(before[p as int] < before[b - 1]);
                        }
                    } else {
                        assert(sorted@[a] == before[a - 1]);
                        assert(sorted@[b] == before[b - 1]);
                    }
                }
            }
        }
        proof {
            let pre = orig.subrange(0, k as int + 1);
            assert(pre =~= orig.subrange(0, k as int).push(v));
            assert forall|x: usize| sorted@.contains(x) <==> pre.contains(x) by {
                if sorted@.contains(x) {
                    let w = choose|w: int| 0 <= w < sorted@.len() && sorted@[w] == x;
                    if x != v {
                        if sorted@.len() == before.len() {
                            assert(before.contains(x));
                        } else if w < p {
                            assert(before[w] == x);
                            assert(before.contains(x));
                        } else {
                            assert(before[w - 1] == x);
                            assert(before.contains(x));
                        }
                        assert(orig.subrange(0, k as int).contains(x));
                        let z = choose|z: int| 0 <= z < k && orig.subrange(0, k as int)[z] == x;
                        assert(pre[z] == x);
                    } else {
                        assert(pre[k as int] == x);
                    }
                }
                if pre.contains(x) {
                    let z = choose|z: int| 0 <= z < pre.len() && pre[z] == x;
                    if z < k {
                        assert(orig.subrange(0, k as int)[z] == x);
                        assert(before.contains(x));
                        let w = choose|w: int| 0 <= w < before.len() && before[w] == x;
                        if sorted@.len() == before.len() {
                            assert(sorted@[w] == x);
                        } else if w < p {
                            assert(sorted@[w] == x);
                        } else {
                            assert(sorted@[w + 1] == x);
                        }
                    } else if sorted@.len() == before.len() {
                        assert(sorted@[p as int] == x);
                    } else {
                        assert(sorted@[p as int] == x);
                    }
                }
            }
        }
        k = k + 1;
    }
    assert(orig.subrange(0, orig.len() as int) =~= orig);
    *values = sorted;
}

/// The column recorded for `key` in `map[j..]`, at its first entry.
pub open spec fn find_key(map: Seq<(Seq<char>, usize)>, key: Seq<char>, j: int) -> Option<usize>
    decreases map.len() - j,
{
    if j < 0 || j >= map.len() {
        None
    } else if map[j].0 == key {
        Some(map[j].1)
    } else {
        find_key(map, key, j + 1)
    }
}

/// The lower-case label of each column with the first column that carries it, the
/// label being the trimmed header or `Column <n>` where the header is blank.
pub open spec fn header_keys(headers: Seq<String>, k: int) -> Seq<(Seq<char>, usize)>
    decreases k,
{
    if k <= 0 {
        seq![]
    } else {
        let prev = header_keys(headers, k - 1);
        let key = lower_of(label_of(headers, k - 1));
        if find_key(prev, key, 0) is Some {
            prev
        } else {
            prev.push((key, (k - 1) as usize))
        }
    }
}

/// The key texts and columns of a header map.
pub open spec fn key_view(v: Seq<(String, usize)>) -> Seq<(Seq<char>, usize)> {
    v.map_values(|e: (String, usize)| (e.0@, e.1))
}

/// For each lower-case column label, the first column that carries it.
pub fn build_header_index_map(headers: &Vec<String>) -> (r: Vec<(String, usize)>)
    ensures
        key_view(r@) == header_keys(headers@, headers.len() as int),
{
    let mut r: Vec<(String, usize)> = Vec::new();
    let mut k: usize = 0;
    while k < headers.len()
        invariant
            k <= headers.len(),
            key_view(r@) == header_keys(headers@, k as int),
        decreases headers.len() - k,
    {
        let label = header_label(headers, k);
        let key = lowercase_text(label.as_str());
        let found = lookup_key(&r, &key);
        if found.is_none() {
            let ghost before = r@;
            r.push((key, k));
            assert(key_view(r@) =~= key_view(before).push((key@, k)));
        }
        k = k + 1;
    }
    r
}

/// The column recorded for `key`, at its first entry, if any.
pub fn lookup_key(map: &Vec<(String, usize)>, key: &String) -> (r: Option<usize>)
    ensures
        r == find_key(key_view(map@), key@, 0),
{
    let ghost kv = key_view(map@);
    let mut j: usize = 0;
    while j < map.len()
        invariant
            j <= map.len(),
            kv == key_view(map@),
            find_key(kv, key@, 0) == find_key(kv, key@, j as int),
        decreases map.len() - j,
    {
        if map[j].0 == *key {
            return Some(map[j].1);
        }
        j = j + 1;
    }
    None
}

/// The column that `label` names, by its trimmed lower-case form, in a map built
/// by `build_header_index_map`.
pub open spec fn column_of(map: Seq<(String, usize)>, label: Seq<char>) -> Option<usize> {
    find_key(key_view(map), lower_of(trim_of(label)), 0)
}

/// `r` holds the columns that `labels` name, in increasing order without repeats,
/// where each label names one; else the first label that names none.
pub open spec fn labels_resolved(map: Seq<(String, usize)>, labels: Seq<String>, r: Result<Vec<usize>, String>) -> bool {
    match r {
        Ok(v) => {
            &&& forall|k: int| 0 <= k < labels.len() ==> #[trigger] column_of(map, labels[k]@) is Some
            &&& forall|a: int, b: int| 0 <= a < b < v.len() ==> v@[a] < v@[b]
            &&& forall|x: usize|
                v@.contains(x) <==> exists|k: int|
                    0 <= k < labels.len() && #[trigger] column_of(map, labels[k]@) == Some(x)
        },
        Err(missing) => exists|k: int|
            0 <= k < labels.len() && labels[k]@ == missing@ && #[trigger] column_of(map, labels[k]@) is None
                && forall|j: int| 0 <= j < k ==> column_of(map, labels[j]@) is Some,
    }
}

/// The columns that `labels` name, in increasing order without repeats; the first
/// label that names no column is the error.
pub fn indexes_from_labels(map: &Vec<(String, usize)>, labels: &Vec<String>) -> (r: Result<Vec<usize>, String>)
    ensures
        labels_resolved(map@, labels@, r),
{
    let mut found: Vec<usize> = Vec::new();
    let mut k: usize = 0;
    while k < labels.len()
        invariant
            k <= labels.len(),
            found.len() == k,
            forall|j: int| 0 <= j < k ==> #[trigger] column_of(map@, labels@[j]@) == Some(found@[j]),
        decreases labels.len() - k,
    {
        let t = trim_text(labels[k].as_str());
        let key = lowercase_text(t.as_str());
        match lookup_key(map, &key) {
            Some(i) => {
                found.push(i);
            },
            None => {
                assert(column_of(map@, labels@[k as int]@) is None);
                return Err(labels[k].clone());
            },
        }
        k = k + 1;
    }
    let ghost chosen = found@;
    sort_and_dedup(&mut found);
    proof {
        assert forall|x: usize| found@.contains(x) <==> exists|k: int|
            0 <= k < labels.len() && #[trigger] column_of(map@, labels@[k]@) == Some(x) by {
            if chosen.contains(x) {
                let w = choose|w: int| 0 <= w < chosen.len() && chosen[w] == x;
                assert(column_of(map@, labels@[w]@) == Some(x));
            }
            if exists|k: int| 0 <= k < labels.len() && #[trigger] column_of(map@, labels@[k]@) == Some(x) {
                let k = choose|k: int| 0 <= k < labels.len() && #[trigger] column_of(map@, labels@[k]@) == Some(x);
                assert(chosen[k] == x);
            }
        }
    }
    Ok(found)
}

/// The columns of a table of queries that `labels` name; the first label that
/// names no column is the error.
pub fn indexes_from_spreadsheet_labels(map: &Vec<(String, usize)>, labels: &Vec<String>) -> (r: Result<
    Vec<usize>,
    String,
>)
    ensures
        labels_resolved(map@, labels@, r),
{
    indexes_from_labels(map, labels)
}

} // verus!
