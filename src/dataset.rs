use vstd::prelude::*;
use vstd::string::{StrSliceExecFns, StringExecFns};
use crate::text::{trim_of, lower_of, trim_text, lowercase_text, push_char, decimal, decimal_string};
use crate::text::{chars_of, text_before, text_precedes, lemma_text_before_irreflexive, lemma_text_before_transitive, lemma_text_before_total};
use crate::index::{text_parts, row_identifiers, pairs_view, identifiers_of};
use crate::headers::{views, holds_text};

verus! {

/// The trimmed, non-blank labels of `ls[..k]`, the first of each in any case, in
/// first-seen order; with the lower-case forms already taken.
pub open spec fn cleaned_labels(ls: Seq<String>, k: int) -> (Seq<Seq<char>>, Seq<Seq<char>>)
    decreases k,
{
    if k <= 0 {
        (seq![], seq![])
    } else {
        let (out, keys) = cleaned_labels(ls, k - 1);
        let t = trim_of(ls[k - 1]@);
        if t.len() > 0 && !keys.contains(lower_of(t)) {
            (out.push(t), keys.push(lower_of(t)))
        } else {
            (out, keys)
        }
    }
}

/// The chosen program names, trimmed, blank ones left out, each name once whatever
/// its case, in the order first given.
pub fn normalize_programs(programs: Vec<String>) -> (r: Vec<String>)
    ensures
        views(r@) == cleaned_labels(programs@, programs.len() as int).0,
{
    let mut out: Vec<String> = Vec::new();
    let mut keys: Vec<String> = Vec::new();
    let mut k: usize = 0;
    while k < programs.len()
        invariant
            k <= programs.len(),
            views(out@) == cleaned_labels(programs@, k as int).0,
            views(keys@) == cleaned_labels(programs@, k as int).1,
        decreases programs.len() - k,
    {
        let t = trim_text(programs[k].as_str());
        if t.as_str().unicode_len() > 0 {
            let key = lowercase_text(t.as_str());
            if !holds_text(&keys, &key) {
                let ghost (o0, k0) = (out@, keys@);
                out.push(t);
                keys.push(key);
                assert(views(out@) =~= views(o0).push(trim_of(programs@[k as int]@)));
                assert(views(keys@) =~= views(k0).push(key@));
            }
        }
        k = k + 1;
    }
    out
}

/// The chosen column labels, trimmed, blank ones left out, each label once whatever
/// its case, in the order first given.
pub fn normalize_columns(columns: Vec<String>) -> (r: Vec<String>)
    ensures
        views(r@) == cleaned_labels(columns@, columns.len() as int).0,
{
    normalize_programs(columns)
}

/// The widest of the header row and the first `n` data rows.
pub open spec fn table_width(headers: Seq<String>, rows: Seq<Vec<String>>, n: int) -> nat
    decreases n,
{
    if n <= 0 {
        headers.len()
    } else {
        let w = table_width(headers, rows, n - 1);
        if rows[n - 1]@.len() > w {
            rows[n - 1]@.len()
        } else {
            w
        }
    }
}

/// `row` brought to `width` cells: cut, or filled with empty cells.
pub open spec fn fitted(row: Seq<String>, width: nat) -> Seq<Seq<char>> {
    Seq::new(width, |i: int| if i < row.len() { row[i]@ } else { seq![] })
}

fn fit_row(row: &mut Vec<String>, width: usize)
    ensures
        views(final(row)@) == fitted(old(row)@, width as nat),
{
    let ghost orig = old(row)@;
    if row.len() > width {
        row.truncate(width);
    }
    while row.len() < width
        invariant
            row.len() <= width,
            row.len() >= width || row.len() >= orig.len(),
            forall|i: int| 0 <= i < row.len() ==> #[trigger] row@[i]@ == if i < orig.len() {
                orig[i]@
            } else {
                seq![]
            },
        decreases width - row.len(),
    {
        row.push(String::new());
    }
    assert(views(row@) =~= fitted(orig, width as nat));
}

/// Brings the header row and every data row to the width of the widest of them,
/// filling with empty cells.
pub fn align_row_lengths(headers: &mut Vec<String>, rows: &mut Vec<Vec<String>>)
    ensures
        views(final(headers)@) == fitted(old(headers)@, table_width(old(headers)@, old(rows)@, old(rows)@.len() as int)),
        final(rows)@.len() == old(rows)@.len(),
        forall|i: int|
            0 <= i < old(rows)@.len() ==> views(#[trigger] final(rows)@[i]@) == fitted(
                old(rows)@[i]@,
                table_width(old(headers)@, old(rows)@, old(rows)@.len() as int),
            ),
{
    let ghost h0 = headers@;
    let ghost r0 = rows@;
    let mut width: usize = headers.len();
    let mut k: usize = 0;
    while k < rows.len()
        invariant
            rows@ == r0,
            headers@ == h0,
            k <= rows.len(),
            width == table_width(h0, r0, k as int),
        decreases rows.len() - k,
    {
        if rows[k].len() > width {
            width = rows[k].len();
        }
        k = k + 1;
    }
    fit_row(headers, width);
    let mut taken: Vec<Vec<String>> = Vec::new();
    std::mem::swap(rows, &mut taken);
    let n = taken.len();
    let mut k: usize = 0;
    while k < n
        invariant
            n == r0.len(),
            k <= n,
            taken@ == r0.subrange(k as int, n as int),
            rows.len() == k,
            width == table_width(h0, r0, n as int),
            forall|i: int| 0 <= i < k ==> views(#[trigger] rows@[i]@) == fitted(r0[i]@, width as nat),
        decreases n - k,
    {
        let mut row = taken.remove(0);
        assert(row == r0[k as int]);
        fit_row(&mut row, width);
        rows.push(row);
        k = k + 1;
    }
}

/// The preview of a query text: the text itself up to 280 characters, else its
/// first 280 characters and an ellipsis.
pub fn build_prompt_preview(text: &str) -> (r: String)
    ensures
        text@.len() <= 280 ==> r@ == text@,
        text@.len() > 280 ==> r@ == text@.subrange(0, 280).push('\u{2026}'),
{
    let n = text.unicode_len();
    if n <= 280 {
        return String::from_str(text);
    }
    let mut r = String::from_str(text.substring_char(0, 280));
    push_char(&mut r, '\u{2026}');
    r
}

/// The phase that a progress record without one is in.
pub fn default_progress_phase() -> (r: String)
    ensures
        r@ == "embedding"@,
{
    String::from_str("embedding")
}

/// What a matching request takes as its queries.
#[derive(Clone, Copy, Debug, PartialEq, Eq)]
pub enum TaskType {
    Prompt,
    Document,
    Spreadsheet,
    Directory,
}

/// Which candidates a matching request compares against.
#[derive(Clone, Copy, Debug, PartialEq, Eq)]
pub enum FacultyScope {
    All,
    Program,
    Custom,
}

/// How the summary names the queries of a request.
pub open spec fn input_phrase(t: TaskType) -> Seq<char> {
    match t {
        TaskType::Prompt => "a single prompt"@,
        TaskType::Document => "one document"@,
        TaskType::Spreadsheet => "a spreadsheet of prompts"@,
        TaskType::Directory => "a directory of documents"@,
    }
}

/// The plural ending for a count of `n`.
pub open spec fn plural(n: nat) -> Seq<char> {
    if n == 1 {
        ""@
    } else {
        "s"@
    }
}

/// How the summary names the candidates of a request.
pub open spec fn scope_phrase(s: FacultyScope, program_count: nat, has_custom_roster: bool) -> Seq<char> {
    match s {
        FacultyScope::All => "the complete faculty roster"@,
        FacultyScope::Program => "faculty filtered to "@ + decimal(program_count) + " program"@ + plural(
            program_count,
        ),
        FacultyScope::Custom => if has_custom_roster {
            "the provided faculty roster spreadsheet"@
        } else {
            "a custom faculty roster"@
        },
    }
}

/// The sentence that sums up a matching request before it runs.
pub open spec fn summary_text(
    t: TaskType,
    s: FacultyScope,
    per_student: nat,
    program_count: nat,
    has_custom_roster: bool,
) -> Seq<char> {
    "Ready to match "@ + input_phrase(t) + " against "@ + scope_phrase(s, program_count, has_custom_roster)
        + ". Each student will receive up to "@ + decimal(per_student) + " faculty recommendation"@ + plural(
        per_student,
    ) + "."@
}

fn plural_suffix(n: u64) -> (r: &'static str)
    ensures
        r@ == plural(n as nat),
{
    if n == 1 {
        ""
    } else {
        "s"
    }
}

/// The sentence that sums up a matching request before it runs.
pub fn build_summary(
    task_type: &TaskType,
    faculty_scope: &FacultyScope,
    faculty_per_student: u32,
    program_count: usize,
    has_custom_roster: bool,
) -> (r: String)
    ensures
        r@ == summary_text(*task_type, *faculty_scope, faculty_per_student as nat, program_count as nat, has_custom_roster),
{
    let mut r = String::from_str("Ready to match ");
    match task_type {
        TaskType::Prompt => r.append("a single prompt"),
        TaskType::Document => r.append("one document"),
        TaskType::Spreadsheet => r.append("a spreadsheet of prompts"),
        TaskType::Directory => r.append("a directory of documents"),
    }
    r.append(" against ");
    match faculty_scope {
        FacultyScope::All => r.append("the complete faculty roster"),
        FacultyScope::Program => {
            r.append("faculty filtered to ");
            let d = decimal_string(program_count as u128);
            r.append(d.as_str());
            r.append(" program");
            r.append(plural_suffix(program_count as u64));
        },
        FacultyScope::Custom => {
            if has_custom_roster {
                r.append("the provided faculty roster spreadsheet");
            } else {
                r.append("a custom faculty roster");
            }
        },
    }
    r.append(". Each student will receive up to ");
    let d = decimal_string(faculty_per_student as u128);
    r.append(d.as_str());
    r.append(" faculty recommendation");
    r.append(plural_suffix(faculty_per_student as u64));
    r.append(".");
    r
}

/// The rows of the candidate table with their identifying values and the
/// categories (programs) they belong to.
pub struct FacultyProgramMembership {
    pub row_index: usize,
    pub identifiers: Vec<(String, String)>,
    pub programs: Vec<String>,
}

/// Membership `m` lists a program whose lower-case form is among `keys`.
pub open spec fn in_any_program(m: FacultyProgramMembership, keys: Seq<Seq<char>>) -> bool {
    exists|i: int| 0 <= i < m.programs@.len() && keys.contains(lower_of(#[trigger] m.programs@[i]@))
}

/// The lower-case forms of `programs`.
pub open spec fn program_keys(programs: Seq<String>) -> Seq<Seq<char>> {
    programs.map_values(|p: String| lower_of(p@))
}

fn any_program_in(m: &FacultyProgramMembership, keys: &Vec<String>) -> (r: bool)
    ensures
        r == in_any_program(*m, views(keys@)),
{
    let mut i: usize = 0;
    while i < m.programs.len()
        invariant
            i <= m.programs@.len(),
            forall|k: int| 0 <= k < i ==> !views(keys@).contains(lower_of(#[trigger] m.programs@[k]@)),
        decreases m.programs.len() - i,
    {
        let key = lowercase_text(m.programs[i].as_str());
        if holds_text(keys, &key) {
            return true;
        }
        i = i + 1;
    }
    false
}

/// The rows whose membership lists one of `programs`, compared in lower case, each
/// row once; none where `programs` is empty.
pub fn filter_faculty_rows_by_program(memberships: &Vec<FacultyProgramMembership>, programs: &Vec<String>) -> (r:
    Vec<usize>)
    ensures
        programs.len() == 0 ==> r.len() == 0,
        forall|a: int, b: int| 0 <= a < b < r.len() ==> r@[a] != r@[b],
        forall|x: usize|
            r@.contains(x) <==> (programs.len() > 0 && exists|j: int|
                0 <= j < memberships.len() && (#[trigger] memberships@[j]).row_index == x && in_any_program(
                    memberships@[j],
                    program_keys(programs@),
                )),
{
    let mut r: Vec<usize> = Vec::new();
    if programs.len() == 0 {
        return r;
    }
    let mut keys: Vec<String> = Vec::new();
    let mut k: usize = 0;
    while k < programs.len()
        invariant
            k <= programs.len(),
            views(keys@) == program_keys(programs@.subrange(0, k as int)),
        decreases programs.len() - k,
    {
        let key = lowercase_text(programs[k].as_str());
        let ghost before = keys@;
        keys.push(key);
        assert(views(keys@) =~= views(before).push(lower_of(programs@[k as int]@)));
        assert(programs@.subrange(0, k as int + 1) =~= programs@.subrange(0, k as int).push(programs@[k as int]));
        k = k + 1;
    }
    assert(programs@.subrange(0, programs.len() as int) =~= programs@);
    let ghost pk = program_keys(programs@);
    let mut j: usize = 0;
    while j < memberships.len()
        invariant
            j <= memberships.len(),
            programs.len() > 0,
            pk == program_keys(programs@),
            views(keys@) == pk,
            forall|a: int, b: int| 0 <= a < b < r.len() ==> r@[a] != r@[b],
            forall|x: usize|
                r@.contains(x) <==> exists|i: int|
                    0 <= i < j && (#[trigger] memberships@[i]).row_index == x && in_any_program(memberships@[i], pk),
        decreases memberships.len() - j,
    {
        let hit = any_program_in(&memberships[j], &keys);
        let ghost before = r@;
        if hit && !crate::ranking::contains_index(&r, memberships[j].row_index) {
            r.push(memberships[j].row_index);
        }
        proof {
            assert forall|x: usize| r@.contains(x) <==> exists|i: int|
                0 <= i < j + 1 && (#[trigger] memberships@[i]).row_index == x && in_any_program(memberships@[i], pk) by {
                if r@.contains(x) {
                    let w = choose|w: int| 0 <= w < r@.len() && r@[w] == x;
                    if w < before.len() {
                        assert(before[w] == x);
                        assert(before.contains(x));
                    }
                }
                if before.contains(x) {
                    let w = choose|w: int| 0 <= w < before.len() && before[w] == x;
                    assert(r@[w] == x);
                }
                if hit && x == memberships@[j as int].row_index {
                    if r@.len() > before.len() {
                        assert(r@[before.len() as int] == x);
                    }
                }
            }
        }
        j = j + 1;
    }
    r
}

/// Why a matching request is refused before any file is read.
#[derive(Clone, Copy, Debug, PartialEq, Eq)]
pub enum RequestError {
    /// Zero recommendations per query were asked for.
    NoRecommendations,
    /// A single prompt was asked for, and its text is blank.
    EmptyPrompt,
    /// A table of queries was given with no column of query text.
    NoPromptColumns,
    /// Candidates are limited by program, and no program is named.
    NoPrograms,
}

/// Checks the settings of a matching request, in this order: at least one
/// recommendation per query; for a single prompt, a text that is not blank; for a
/// table of queries, at least one column of query text; when limiting by program,
/// at least one program.
pub fn check_request(
    task_type: &TaskType,
    faculty_scope: &FacultyScope,
    recommendations_per_student: u32,
    prompt_text: &str,
    prompt_column_count: usize,
    program_count: usize,
) -> (r: Result<(), RequestError>)
    ensures
        r == if recommendations_per_student == 0 {
            Err(RequestError::NoRecommendations)
        } else if *task_type == TaskType::Prompt && trim_of(prompt_text@).len() == 0 {
            Err(RequestError::EmptyPrompt)
        } else if *task_type == TaskType::Spreadsheet && prompt_column_count == 0 {
            Err(RequestError::NoPromptColumns)
        } else if *faculty_scope == FacultyScope::Program && program_count == 0 {
            Err(RequestError::NoPrograms)
        } else {
            Ok::<(), RequestError>(())
        },
{
    if recommendations_per_student == 0 {
        return Err(RequestError::NoRecommendations);
    }
    match task_type {
        TaskType::Prompt => {
            let t = trim_text(prompt_text);
            if t.as_str().unicode_len() == 0 {
                return Err(RequestError::EmptyPrompt);
            }
        },
        TaskType::Spreadsheet => {
            if prompt_column_count == 0 {
                return Err(RequestError::NoPromptColumns);
            }
        },
        _ => {},
    }
    match faculty_scope {
        FacultyScope::Program => {
            if program_count == 0 {
                return Err(RequestError::NoPrograms);
            }
        },
        _ => {},
    }
    Ok(())
}

/// The occurrences of `c` in `s`.
pub open spec fn count_char(s: Seq<char>, c: char) -> nat
    decreases s.len(),
{
    if s.len() == 0 {
        0
    } else {
        count_char(s.drop_last(), c) + if s.last() == c {
            1nat
        } else {
            0nat
        }
    }
}

fn count_of(s: &Vec<char>, c: char) -> (r: usize)
    ensures
        r == count_char(s@, c),
{
    let mut r: usize = 0;
    let mut i: usize = 0;
    while i < s.len()
        invariant
            i <= s.len(),
            r == count_char(s@.subrange(0, i as int), c),
            r <= i,
        decreases s.len() - i,
    {
        assert(s@.subrange(0, i as int + 1).drop_last() =~= s@.subrange(0, i as int));
        if s[i] == c {
            r = r + 1;
        }
        i = i + 1;
    }
    assert(s@.subrange(0, s.len() as int) =~= s@);
    r
}

/// The delimiter that a line of a delimited table suggests: of tab, comma and
/// semicolon the most frequent, the later of these on a tie; `None` where the line
/// holds none of them.
pub fn delimiter_of_line(line: &str) -> (r: Option<u8>)
    ensures
        ({
            let (t, c, s) = (count_char(line@, '\t'), count_char(line@, ','), count_char(line@, ';'));
            r == if t == 0 && c == 0 && s == 0 {
                None
            } else if s >= c && s >= t {
                Some(0x3bu8)
            } else if c >= t {
                Some(0x2cu8)
            } else {
                Some(0x09u8)
            }
        }),
{
    let chars = chars_of(line);
    let t = count_of(&chars, '\t');
    let c = count_of(&chars, ',');
    let s = count_of(&chars, ';');
    if t == 0 && c == 0 && s == 0 {
        None
    } else if s >= c && s >= t {
        Some(0x3bu8)
    } else if c >= t {
        Some(0x2cu8)
    } else {
        Some(0x09u8)
    }
}

/// The key and value texts of a keyed list.
pub open spec fn keyed_view(v: Seq<(Vec<char>, String)>) -> Seq<(Seq<char>, Seq<char>)> {
    v.map_values(|p: (Vec<char>, String)| (p.0@, p.1@))
}

/// The keys of `s` are in strictly increasing `String` order.
pub open spec fn keys_sorted(s: Seq<(Seq<char>, Seq<char>)>) -> bool {
    forall|a: int, b: int| 0 <= a < b < s.len() ==> text_before(s[a].0, s[b].0)
}

/// Some entry of `s` has the key `key`.
pub open spec fn has_key(s: Seq<(Seq<char>, Seq<char>)>, key: Seq<char>) -> bool {
    exists|i: int| 0 <= i < s.len() && (#[trigger] s[i]).0 == key
}

/// Adds `value` under `key` to a list kept in increasing order of its keys,
/// unless the key is already there.
fn insert_keyed(list: &mut Vec<(Vec<char>, String)>, key: Vec<char>, value: String)
    requires
        keys_sorted(keyed_view(old(list)@)),
    ensures
        keys_sorted(keyed_view(final(list)@)),
        has_key(keyed_view(old(list)@), key@) ==> final(list)@ == old(list)@,
        !has_key(keyed_view(old(list)@), key@) ==> forall|x: (Seq<char>, Seq<char>)|
            keyed_view(final(list)@).contains(x) <==> (keyed_view(old(list)@).contains(x) || x == (key@, value@)),
{
    let ghost before = keyed_view(list@);
    let mut p: usize = 0;
    while p < list.len() && text_precedes(&list[p].0, &key)
        invariant
            before == keyed_view(list@),
            p <= list.len(),
            forall|a: int| 0 <= a < p ==> text_before(#[trigger] before[a].0, key@),
        decreases list.len() - p,
    {
        p = p + 1;
    }
    if p < list.len() && !text_precedes(&key, &list[p].0) {
        proof {
            assert(!text_before(before[p as int].0, key@));
            if before[p as int].0 != key@ {
                lemma_text_before_total(before[p as int].0, key@);
            }
            assert(before[p as int].0 == key@);
        }
        return;
    }
    proof {
        assert forall|i: int| 0 <= i < before.len() implies (#[trigger] before[i]).0 != key@ by {
            if i < p {
                lemma_text_before_irreflexive(key@);
            } else {
                assert(text_before(key@, before[p as int].0));
                if i > p {
                    lemma_text_before_transitive(key@, before[p as int].0, before[i].0);
                }
                lemma_text_before_irreflexive(key@);
            }
        }
    }
    let ghost kv = key@;
    let ghost vv = value@;
    list.insert(p, (key, value));
    let ghost after = keyed_view(list@);
    proof {
        assert(after =~= before.insert(p as int, (kv, vv)));
        assert forall|a: int, b: int| 0 <= a < b < after.len() implies text_before(after[a].0, after[b].0) by {
            if b < p {
            } else if b == p {
            } else if a < p {
                lemma_text_before_transitive(after[a].0, kv, before[p as int].0);
                if b - 1 > p {
                    lemma_text_before_transitive(after[a].0, before[p as int].0, before[b - 1].0);
                }
            } else if a == p {
                if b - 1 > p {
                    lemma_text_before_transitive(kv, before[p as int].0, before[b - 1].0);
                }
            } else {
            }
        }
        assert forall|x: (Seq<char>, Seq<char>)| after.contains(x) <==> (before.contains(x) || x == (kv, vv)) by {
            if after.contains(x) {
                let w = choose|w: int| 0 <= w < after.len() && after[w] == x;
                if w < p {
                    assert(before[w] == x);
                } else if w > p {
                    assert(before[w - 1] == x);
                }
            }
            if before.contains(x) {
                let w = choose|w: int| 0 <= w < before.len() && before[w] == x;
                if w < p {
                    assert(after[w] == x);
                } else {
                    assert(after[w + 1] == x);
                }
            }
            if x == (kv, vv) {
                assert(after[p as int] == x);
            }
        }
    }
}

/// Row `row` has identifying values or categories to record.
pub open spec fn has_membership(headers: Seq<String>, row: Seq<String>, iidx: Seq<usize>, pidx: Seq<usize>) -> bool {
    row_identifiers(headers, row, iidx, iidx.len() as int).len() > 0 || text_parts(row, pidx, pidx.len() as int).len() > 0
}

/// The rows among the first `n` that have identifying values or categories.
pub open spec fn membership_rows(
    headers: Seq<String>,
    rows: Seq<Vec<String>>,
    iidx: Seq<usize>,
    pidx: Seq<usize>,
    n: int,
) -> Seq<usize>
    decreases n,
{
    if n <= 0 {
        seq![]
    } else {
        let prev = membership_rows(headers, rows, iidx, pidx, n - 1);
        if has_membership(headers, rows[n - 1]@, iidx, pidx) {
            prev.push((n - 1) as usize)
        } else {
            prev
        }
    }
}

/// `m` records row `r`: its identifying values, and its distinct categories in
/// increasing `String` order.
pub open spec fn records_row(
    headers: Seq<String>,
    rows: Seq<Vec<String>>,
    iidx: Seq<usize>,
    pidx: Seq<usize>,
    r: int,
    m: FacultyProgramMembership,
) -> bool {
    let programs = views(m.programs@);
    let values = text_parts(rows[r]@, pidx, pidx.len() as int);
    &&& m.row_index == r
    &&& pairs_view(m.identifiers@) == row_identifiers(headers, rows[r]@, iidx, iidx.len() as int)
    &&& forall|a: int, b: int| 0 <= a < b < programs.len() ==> text_before(programs[a], programs[b])
    &&& forall|x: Seq<char>| programs.contains(x) <==> values.contains(x)
}

/// The distinct categories of one row, in increasing `String` order.
fn row_programs(row: &Vec<String>, pidx: &Vec<usize>) -> (r: Vec<String>)
    ensures
        forall|a: int, b: int| 0 <= a < b < r.len() ==> text_before(r@[a]@, r@[b]@),
        forall|x: Seq<char>| views(r@).contains(x) <==> text_parts(row@, pidx@, pidx.len() as int).contains(x),
{
    let mut list: Vec<(Vec<char>, String)> = Vec::new();
    let mut k: usize = 0;
    while k < pidx.len()
        invariant
            k <= pidx.len(),
            keys_sorted(keyed_view(list@)),
            forall|i: int| 0 <= i < list.len() ==> (#[trigger] keyed_view(list@)[i]).0 == keyed_view(list@)[i].1,
            forall|x: Seq<char>|
                has_key(keyed_view(list@), x) <==> text_parts(row@, pidx@, k as int).contains(x),
        decreases pidx.len() - k,
    {
        let c = pidx[k];
        let ghost prev_parts = text_parts(row@, pidx@, k as int);
        let ghost next_parts = text_parts(row@, pidx@, k as int + 1);
        if c < row.len() {
            let t = trim_text(row[c].as_str());
            if t.as_str().unicode_len() > 0 {
                let key = chars_of(t.as_str());
                let ghost old_view = keyed_view(list@);
                let ghost tv = t@;
                insert_keyed(&mut list, key, t);
                proof {
                    assert(next_parts == prev_parts.push(tv));
                    let nv = keyed_view(list@);
                    assert forall|i: int| 0 <= i < nv.len() implies (#[trigger] nv[i]).0 == nv[i].1 by {
                        if !has_key(old_view, tv) {
                            assert(nv.contains(nv[i]));
                            if old_view.contains(nv[i]) {
                                let w = choose|w: int| 0 <= w < old_view.len() && old_view[w] == nv[i];
                                assert(old_view[w].0 == old_view[w].1);
                            }
                        }
                    }
                    assert forall|x: Seq<char>| has_key(nv, x) <==> next_parts.contains(x) by {
                        if has_key(nv, x) {
                            let i = choose|i: int| 0 <= i < nv.len() && (#[trigger] nv[i]).0 == x;
                            if x != tv {
                                if !has_key(old_view, tv) {
                                    assert(nv.contains(nv[i]));
                                    let w = choose|w: int| 0 <= w < old_view.len() && old_view[w] == nv[i];
                                    assert(has_key(old_view, x));
                                } else {
                                    assert(has_key(old_view, x));
                                }
                                let z = choose|z: int| 0 <= z < prev_parts.len() && prev_parts[z] == x;
                                assert(next_parts[z] == x);
                            } else {
                                assert(next_parts[next_parts.len() - 1] == x);
                            }
                        }
                        if next_parts.contains(x) {
                            let z = choose|z: int| 0 <= z < next_parts.len() && next_parts[z] == x;
                            if z < prev_parts.len() {
                                assert(prev_parts[z] == x);
                                assert(prev_parts.contains(x));
                                assert(has_key(old_view, x));
                                let i = choose|i: int| 0 <= i < old_view.len() && (#[trigger] old_view[i]).0 == x;
                                if !has_key(old_view, tv) {
                                    assert(old_view.contains(old_view[i]));
                                    assert(nv.contains(old_view[i]));
                                    let j = choose|j: int| 0 <= j < nv.len() && nv[j] == old_view[i];
                                    assert(nv[j].0 == x);
                                } else {
                                    assert(nv[i].0 == x);
                                }
                            } else {
                                assert(x == tv);
                                if !has_key(old_view, tv) {
                                    assert(nv.contains((tv, tv)));
                                    let j = choose|j: int| 0 <= j < nv.len() && nv[j] == (tv, tv);
                                    assert(nv[j].0 == x);
                                } else {
                                    let i = choose|i: int| 0 <= i < old_view.len() && (#[trigger] old_view[i]).0 == tv;
                                    assert(nv[i].0 == x);
                                }
                            }
                        }
                    }
                }
            }
        }
        k = k + 1;
    }
    let ghost kv = keyed_view(list@);
    let mut r: Vec<String> = Vec::new();
    let mut i: usize = 0;
    while i < list.len()
        invariant
            kv == keyed_view(list@),
            i <= list.len(),
            r.len() == i,
            forall|j: int| 0 <= j < i ==> (#[trigger] r@[j])@ == kv[j].1,
        decreases list.len() - i,
    {
        r.push(list[i].1.clone());
        i = i + 1;
    }
    proof {
        assert forall|a: int, b: int| 0 <= a < b < r.len() implies text_before(r@[a]@, r@[b]@) by {
            assert(kv[a].0 == kv[a].1);
            assert(kv[b].0 == kv[b].1);
        }
        assert forall|x: Seq<char>| views(r@).contains(x) <==> text_parts(row@, pidx@, pidx.len() as int).contains(x) by {
            if views(r@).contains(x) {
                let j = choose|j: int| 0 <= j < views(r@).len() && views(r@)[j] == x;
                assert(kv[j].0 == x);
                assert(has_key(kv, x));
            }
            if has_key(kv, x) {
                let j = choose|j: int| 0 <= j < kv.len() && (#[trigger] kv[j]).0 == x;
                assert(views(r@)[j] == x);
            }
        }
    }
    r
}

/// For each row with identifying values or categories: its row index, its
/// identifying values, and its distinct categories in increasing order.
pub fn build_faculty_program_memberships(
    headers: &Vec<String>,
    rows: &Vec<Vec<String>>,
    identifier_indexes: &Vec<usize>,
    program_indexes: &Vec<usize>,
) -> (r: Vec<FacultyProgramMembership>)
    ensures
        r.len() == membership_rows(headers@, rows@, identifier_indexes@, program_indexes@, rows.len() as int).len(),
        forall|k: int|
            0 <= k < r.len() ==> records_row(
                headers@,
                rows@,
                identifier_indexes@,
                program_indexes@,
                membership_rows(headers@, rows@, identifier_indexes@, program_indexes@, rows.len() as int)[k] as int,
                #[trigger] r@[k],
            ),
{
    let ghost (iidx, pidx) = (identifier_indexes@, program_indexes@);
    let mut r: Vec<FacultyProgramMembership> = Vec::new();
    let mut n: usize = 0;
    while n < rows.len()
        invariant
            n <= rows.len(),
            iidx == identifier_indexes@,
            pidx == program_indexes@,
            r.len() == membership_rows(headers@, rows@, iidx, pidx, n as int).len(),
            forall|k: int|
                0 <= k < r.len() ==> records_row(
                    headers@,
                    rows@,
                    iidx,
                    pidx,
                    membership_rows(headers@, rows@, iidx, pidx, n as int)[k] as int,
                    #[trigger] r@[k],
                ),
        decreases rows.len() - n,
    {
        let identifiers = identifiers_of(headers, &rows[n], identifier_indexes);
        let programs = row_programs(&rows[n], program_indexes);
        let ghost values = text_parts(rows@[n as int]@, pidx, pidx.len() as int);
        proof {
            if values.len() > 0 {
                assert(values.contains(values[0]));
                assert(views(programs@).contains(values[0]));
            }
            if programs.len() > 0 {
                assert(views(programs@).contains(views(programs@)[0]));
            }
        }
        let ghost prev_rows = membership_rows(headers@, rows@, iidx, pidx, n as int);
        if identifiers.len() > 0 || programs.len() > 0 {
            let ghost before = r@;
            r.push(FacultyProgramMembership { row_index: n, identifiers, programs });
            proof {
                let rows_now = membership_rows(headers@, rows@, iidx, pidx, n as int + 1);
                assert(rows_now == prev_rows.push(n as usize));
                assert forall|k: int| 0 <= k < r.len() implies records_row(headers@, rows@, iidx, pidx, rows_now[k] as int, #[trigger] r@[k]) by {
                    if k < before.len() {
                        assert(r@[k] == before[k]);
                        assert(rows_now[k] == prev_rows[k]);
                    }
                }
            }
        }
        n = n + 1;
    }
    r
}

/// The trimmed, non-blank category values of the first `n` rows, row by row and
/// column by column.
pub open spec fn scanned_values(rows: Seq<Vec<String>>, pidx: Seq<usize>, n: int) -> Seq<Seq<char>>
    decreases n,
{
    if n <= 0 {
        seq![]
    } else {
        scanned_values(rows, pidx, n - 1) + text_parts(rows[n - 1]@, pidx, pidx.len() as int)
    }
}

/// The values of `vals[..k]` that are first of their lower-case form, in order;
/// with those lower-case forms.
pub open spec fn first_by_case(vals: Seq<Seq<char>>, k: int) -> (Seq<Seq<char>>, Seq<Seq<char>>)
    decreases k,
{
    if k <= 0 {
        (seq![], seq![])
    } else {
        let (out, keys) = first_by_case(vals, k - 1);
        if keys.contains(lower_of(vals[k - 1])) {
            (out, keys)
        } else {
            (out.push(vals[k - 1]), keys.push(lower_of(vals[k - 1])))
        }
    }
}

proof fn lemma_first_by_case_keys(vals: Seq<Seq<char>>, k: int)
    requires
        0 <= k <= vals.len(),
    ensures
        first_by_case(vals, k).1 == first_by_case(vals, k).0.map_values(|v: Seq<char>| lower_of(v)),
    decreases k,
{
    if k > 0 {
        lemma_first_by_case_keys(vals, k - 1);
        let (out, keys) = first_by_case(vals, k - 1);
        if !keys.contains(lower_of(vals[k - 1])) {
            assert(out.push(vals[k - 1]).map_values(|v: Seq<char>| lower_of(v)) =~= out.map_values(
                |v: Seq<char>| lower_of(v),
            ).push(lower_of(vals[k - 1])));
        }
    }
}

/// The trimmed, non-blank values of `row` in the columns `idxs`, in that order.
fn cell_values(row: &Vec<String>, idxs: &Vec<usize>) -> (r: Vec<String>)
    ensures
        views(r@) == text_parts(row@, idxs@, idxs.len() as int),
{
    let mut r: Vec<String> = Vec::new();
    let mut k: usize = 0;
    while k < idxs.len()
        invariant
            k <= idxs.len(),
            views(r@) == text_parts(row@, idxs@, k as int),
        decreases idxs.len() - k,
    {
        let c = idxs[k];
        if c < row.len() {
            let t = trim_text(row[c].as_str());
            if t.as_str().unicode_len() > 0 {
                let ghost before = r@;
                r.push(t);
                assert(views(r@) =~= views(before).push(r@[r.len() - 1]@));
            }
        }
        k = k + 1;
    }
    r
}

/// The distinct category values of a table, compared in lower case with the first
/// spelling kept, in increasing order of their lower-case forms.
pub fn collect_program_values(rows: &Vec<Vec<String>>, program_indexes: &Vec<usize>) -> (r: Vec<String>)
    ensures
        forall|a: int, b: int|
            0 <= a < b < r.len() ==> text_before(lower_of(r@[a]@), lower_of(r@[b]@)),
        forall|x: Seq<char>|
            views(r@).contains(x) <==> first_by_case(
                scanned_values(rows@, program_indexes@, rows.len() as int),
                scanned_values(rows@, program_indexes@, rows.len() as int).len() as int,
            ).0.contains(x),
{
    let ghost pidx = program_indexes@;
    let mut vals: Vec<String> = Vec::new();
    let mut n: usize = 0;
    while n < rows.len()
        invariant
            n <= rows.len(),
            pidx == program_indexes@,
            views(vals@) == scanned_values(rows@, pidx, n as int),
        decreases rows.len() - n,
    {
        let mut part = cell_values(&rows[n], program_indexes);
        let ghost before = views(vals@);
        let ghost added = views(part@);
        vals.append(&mut part);
        assert(views(vals@) =~= before + added);
        n = n + 1;
    }
    let ghost all = views(vals@);
    let mut seen: Vec<String> = Vec::new();
    let mut list: Vec<(Vec<char>, String)> = Vec::new();
    let mut k: usize = 0;
    while k < vals.len()
        invariant
            k <= vals.len(),
            all == views(vals@),
            views(seen@) == first_by_case(all, k as int).1,
            keys_sorted(keyed_view(list@)),
            forall|x: (Seq<char>, Seq<char>)|
                keyed_view(list@).contains(x) <==> (first_by_case(all, k as int).0.contains(x.1) && x.0 == lower_of(x.1)),
        decreases vals.len() - k,
    {
        let key = lowercase_text(vals[k].as_str());
        proof {
            lemma_first_by_case_keys(all, k as int);
        }
        if !holds_text(&seen, &key) {
            let ghost (out0, keys0) = first_by_case(all, k as int);
            let ghost lv = keyed_view(list@);
            let ghost vk = all[k as int];
            proof {
                if has_key(lv, key@) {
                    let i = choose|i: int| 0 <= i < lv.len() && (#[trigger] lv[i]).0 == key@;
                    assert(lv.contains(lv[i]));
                    assert(out0.contains(lv[i].1));
                    let j = choose|j: int| 0 <= j < out0.len() && out0[j] == lv[i].1;
                    assert(keys0[j] == lower_of(out0[j]));
                    assert(keys0.contains(key@));
                }
            }
            let seen_key = key.clone();
            seen.push(seen_key);
            let chars = chars_of(key.as_str());
            insert_keyed(&mut list, chars, vals[k].clone());
            proof {
                let (out1, keys1) = first_by_case(all, k as int + 1);
                assert(out1 == out0.push(vk));
                assert(views(seen@) =~= keys0.push(lower_of(vk)));
                assert forall|x: (Seq<char>, Seq<char>)|
                    keyed_view(list@).contains(x) <==> (out1.contains(x.1) && x.0 == lower_of(x.1)) by {
                    if out1.contains(x.1) {
                        let j = choose|j: int| 0 <= j < out1.len() && out1[j] == x.1;
                        if j < out0.len() {
                            assert(out0[j] == x.1);
                            assert(out0.contains(x.1));
                        }
                    }
                    if out0.contains(x.1) {
                        let j = choose|j: int| 0 <= j < out0.len() && out0[j] == x.1;
                        assert(out1[j] == x.1);
                    }
                    if x.1 == vk {
                        assert(out1[out0.len() as int] == x.1);
                    }
                }
            }
        }
        k = k + 1;
    }
    let ghost kv = keyed_view(list@);
    let mut r: Vec<String> = Vec::new();
    let mut i: usize = 0;
    while i < list.len()
        invariant
            kv == keyed_view(list@),
            i <= list.len(),
            r.len() == i,
            forall|j: int| 0 <= j < i ==> (#[trigger] r@[j])@ == kv[j].1,
        decreases list.len() - i,
    {
        r.push(list[i].1.clone());
        i = i + 1;
    }
    proof {
        let fin = first_by_case(all, all.len() as int).0;
        assert forall|j: int| 0 <= j < kv.len() implies (#[trigger] kv[j]).0 == lower_of(kv[j].1) by {
            assert(kv.contains(kv[j]));
        }
        assert forall|a: int, b: int| 0 <= a < b < r.len() implies text_before(lower_of(r@[a]@), lower_of(r@[b]@)) by {
            assert(kv[a].0 == lower_of(kv[a].1));
            assert(kv[b].0 == lower_of(kv[b].1));
        }
        assert forall|x: Seq<char>| views(r@).contains(x) <==> fin.contains(x) by {
            if views(r@).contains(x) {
                let j = choose|j: int| 0 <= j < views(r@).len() && views(r@)[j] == x;
                assert(kv[j].1 == x);
                assert(kv.contains(kv[j]));
            }
            if fin.contains(x) {
                assert(kv.contains((lower_of(x), x)));
                let j = choose|j: int| 0 <= j < kv.len() && kv[j] == (lower_of(x), x);
                assert(views(r@)[j] == x);
            }
        }
    }
    r
}

} // verus!
