use vstd::prelude::*;
use vstd::string::{StrSliceExecFns, StringExecFns};
use crate::headers::views;
use crate::workbook::{join_with, join_strings};

verus! {

/// `data` opens with the bytes of `prefix`.
pub open spec fn starts_with(data: Seq<u8>, prefix: Seq<u8>) -> bool {
    data.len() >= prefix.len() && data.subrange(0, prefix.len() as int) == prefix
}

/// The bytes `%PDF-` that open a PDF file.
pub open spec fn pdf_magic() -> Seq<u8> {
    seq![0x25u8, 0x50u8, 0x44u8, 0x46u8, 0x2du8]
}

/// The bytes `PK` that open a zip archive, and so a DOCX file.
pub open spec fn zip_magic() -> Seq<u8> {
    seq![0x50u8, 0x4bu8]
}

/// The bytes `{\rtf` that open an RTF document.
pub open spec fn rtf_magic() -> Seq<u8> {
    seq![0x7bu8, 0x5cu8, 0x72u8, 0x74u8, 0x66u8]
}

/// An ASCII white-space byte: space, tab, line feed, form feed or carriage return.
pub open spec fn ascii_space(b: u8) -> bool {
    b == 0x20 || b == 0x09 || b == 0x0a || b == 0x0c || b == 0x0d
}

fn opens_with(data: &[u8], from: usize, prefix: &Vec<u8>) -> (r: bool)
    requires
        from <= data@.len(),
    ensures
        r == starts_with(data@.subrange(from as int, data@.len() as int), prefix@),
{
    let ghost rest = data@.subrange(from as int, data@.len() as int);
    if data.len() - from < prefix.len() {
        return false;
    }
    let mut i: usize = 0;
    while i < prefix.len()
        invariant
            from + prefix.len() <= data@.len(),
            data@.len() == data.len(),
            rest == data@.subrange(from as int, data@.len() as int),
            i <= prefix.len(),
            forall|k: int| 0 <= k < i ==> data@[from + k] == prefix@[k],
        decreases prefix.len() - i,
    {
        if data[from + i] != prefix[i] {
            assert(rest.subrange(0, prefix.len() as int)[i as int] != prefix@[i as int]);
            return false;
        }
        i = i + 1;
    }
    assert(rest.subrange(0, prefix.len() as int) =~= prefix@);
    true
}

/// Whether `data` opens as a PDF file.
pub fn looks_like_pdf(data: &[u8]) -> (r: bool)
    ensures
        r == starts_with(data@, pdf_magic()),
{
    let magic = vec![0x25u8, 0x50u8, 0x44u8, 0x46u8, 0x2du8];
    assert(magic@ =~= pdf_magic());
    assert(data@.subrange(0, data@.len() as int) =~= data@);
    opens_with(data, 0, &magic)
}

/// Whether `data` is longer than four bytes and opens as a zip archive, as a DOCX
/// file does.
pub fn looks_like_docx(data: &[u8]) -> (r: bool)
    ensures
        r == (data@.len() > 4 && starts_with(data@, zip_magic())),
{
    let magic = vec![0x50u8, 0x4bu8];
    assert(magic@ =~= zip_magic());
    assert(data@.subrange(0, data@.len() as int) =~= data@);
    data.len() > 4 && opens_with(data, 0, &magic)
}

/// Whether `data`, past any leading ASCII white space, opens as an RTF document.
pub fn looks_like_rtf(data: &[u8]) -> (r: bool)
    ensures
        r == exists|s: int|
            0 <= s <= data@.len() && (forall|k: int| 0 <= k < s ==> ascii_space(#[trigger] data@[k])) && (s
                == data@.len() || !ascii_space(data@[s])) && starts_with(
                data@.subrange(s, data@.len() as int),
                rtf_magic(),
            ),
{
    let mut s: usize = 0;
    while s < data.len() && (data[s] == 0x20 || data[s] == 0x09 || data[s] == 0x0a || data[s] == 0x0c
        || data[s] == 0x0d)
        invariant
            s <= data@.len(),
            forall|k: int| 0 <= k < s ==> ascii_space(#[trigger] data@[k]),
        decreases data@.len() - s,
    {
        s = s + 1;
    }
    let magic = vec![0x7bu8, 0x5cu8, 0x72u8, 0x74u8, 0x66u8];
    assert(magic@ =~= rtf_magic());
    let r = opens_with(data, s, &magic);
    proof {
        if !r {
            assert forall|t: int|
                0 <= t <= data@.len() && (forall|k: int| 0 <= k < t ==> ascii_space(#[trigger] data@[k])) && (t
                    == data@.len() || !ascii_space(data@[t])) implies !starts_with(
                data@.subrange(t, data@.len() as int),
                rtf_magic(),
            ) by {
                if t < s {
                    assert(ascii_space(data@[t]));
                } else if t > s {
                    assert(ascii_space(data@[s as int]));
                }
            }
        }
    }
    r
}

/// `c` in lower case where it is an ASCII capital, else `c` itself.
pub open spec fn ascii_lower(c: char) -> char {
    if 'A' <= c && c <= 'Z' {
        (((c as u32) as u8) + 32) as char
    } else {
        c
    }
}

/// `a` and `b` are equal once ASCII capitals are taken in lower case.
pub open spec fn same_ignoring_ascii_case(a: Seq<char>, b: Seq<char>) -> bool {
    a.len() == b.len() && forall|i: int| 0 <= i < a.len() ==> ascii_lower(#[trigger] a[i]) == ascii_lower(b[i])
}

fn lower_ascii_char(c: char) -> (r: char)
    ensures
        r == ascii_lower(c),
{
    if 'A' <= c && c <= 'Z' {
        let v: u8 = (c as u32) as u8 + 32;
        v as char
    } else {
        c
    }
}

fn eq_ignoring_ascii_case(a: &str, b: &str) -> (r: bool)
    ensures
        r == same_ignoring_ascii_case(a@, b@),
{
    let n = a.unicode_len();
    if n != b.unicode_len() {
        return false;
    }
    let mut i: usize = 0;
    while i < n
        invariant
            n == a@.len(),
            n == b@.len(),
            i <= n,
            forall|k: int| 0 <= k < i ==> ascii_lower(#[trigger] a@[k]) == ascii_lower(b@[k]),
        decreases n - i,
    {
        if lower_ascii_char(a.get_char(i)) != lower_ascii_char(b.get_char(i)) {
            return false;
        }
        i = i + 1;
    }
    true
}

/// The warning about a file's extension: none where it is one of `allowed`, in any
/// ASCII case; else a sentence that names it and the expected ones, or says that
/// there is none.
pub open spec fn extension_warning(ext: Option<Seq<char>>, allowed: Seq<Seq<char>>, label: Seq<char>) -> Option<
    Seq<char>,
> {
    match ext {
        Some(e) => if exists|i: int| 0 <= i < allowed.len() && same_ignoring_ascii_case(e, #[trigger] allowed[i]) {
            None
        } else {
            Some(
                "The selected "@ + label + " uses '."@ + e + "', which is outside the expected extensions: "@
                    + join_with(allowed, ", "@) + "."@,
            )
        },
        None => Some("The selected "@ + label + " does not include an extension. Confirm it is supported."@),
    }
}

/// The text of an optional extension.
pub open spec fn ext_view(extension: Option<&str>) -> Option<Seq<char>> {
    match extension {
        Some(e) => Some(e@),
        None => None,
    }
}

/// The warning about a file's extension `extension` (`None` where the path has
/// none), given the `allowed` extensions and what the file is called.
pub fn validate_extension(extension: Option<&str>, allowed: &Vec<String>, label: &str) -> (r: Option<String>)
    ensures
        r is None <==> extension_warning(ext_view(extension), views(allowed@), label@) is None,
        r matches Some(m) ==> extension_warning(ext_view(extension), views(allowed@), label@) == Some(m@),
{
    match extension {
        Some(ext) => {
            let mut i: usize = 0;
            while i < allowed.len()
                invariant
                    i <= allowed.len(),
                    extension == Some(ext),
                    forall|k: int| 0 <= k < i ==> !same_ignoring_ascii_case(ext@, #[trigger] views(allowed@)[k]),
                decreases allowed.len() - i,
            {
                if eq_ignoring_ascii_case(ext, allowed[i].as_str()) {
                    let ghost vs = views(allowed@);
                    assert(same_ignoring_ascii_case(ext@, vs[i as int]));
                    assert(exists|k: int| 0 <= k < vs.len() && same_ignoring_ascii_case(ext@, #[trigger] vs[k]));
                    return None;
                }
                i = i + 1;
            }
            let mut m = String::from_str("The selected ");
            m.append(label);
            m.append(" uses '.");
            m.append(ext);
            m.append("', which is outside the expected extensions: ");
            let joined = join_strings(allowed, ", ");
            m.append(joined.as_str());
            m.append(".");
            Some(m)
        },
        None => {
            let mut m = String::from_str("The selected ");
            m.append(label);
            m.append(" does not include an extension. Confirm it is supported.");
            Some(m)
        },
    }
}

} // verus!
