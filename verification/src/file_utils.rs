use vstd::prelude::*;

verus! {

/// A PNG file to process: where it is read from and where the result goes.
/// For in-place operations the two paths are the same.
#[derive(Clone, Debug)]
pub struct PngFile {
    pub source_path: String,
    pub target_path: String,
}

/// The lowercase form of an ASCII letter; anything else is unchanged.
pub open spec fn spec_lower_char(c: char) -> char {
    if 'A' <= c && c <= 'Z' {
        ((c as u8) + 32) as char
    } else {
        c
    }
}

fn lower_char(c: char) -> (r: char)
    ensures
        r == spec_lower_char(c),
{
    if 'A' <= c && c <= 'Z' {
        ((c as u8) + 32) as char
    } else {
        c
    }
}

/// A path names a PNG file: it ends, case-insensitively, in `.png`, and the
/// dot does not start a path component (so hidden files like `.png` do not
/// count).
pub open spec fn spec_is_png_file(s: Seq<char>) -> bool {
    let n = s.len() as int;
    &&& n >= 5
    &&& s[n - 4] == '.'
    &&& spec_lower_char(s[n - 3]) == 'p'
    &&& spec_lower_char(s[n - 2]) == 'n'
    &&& spec_lower_char(s[n - 1]) == 'g'
    &&& s[n - 5] != '/'
}

/// Checks if a path names a PNG file by its extension.
pub fn is_png_file(path: &str) -> (r: bool)
    ensures
        r == spec_is_png_file(path@),
{
    let n: usize = path.unicode_len();
    if n < 5 {
        return false;
    }
    path.get_char(n - 4) == '.' && lower_char(path.get_char(n - 3)) == 'p' && lower_char(
        path.get_char(n - 2),
    ) == 'n' && lower_char(path.get_char(n - 1)) == 'g' && path.get_char(n - 5) != '/'
}

/// Prepare a list of specific PNG files for processing: each path becomes
/// an in-place work item whose target equals its source.
pub fn prepare_specific_png_files(files: &Vec<String>) -> (r: Vec<PngFile>)
    ensures
        r@.len() == files@.len(),
        forall|i: int|
            0 <= i < files@.len() ==> (#[trigger] r@[i]).source_path@ == files@[i]@ && r@[
                i
            ].target_path@ == files@[i]@,
{
    let mut result: Vec<PngFile> = Vec::new();
    let n: usize = files.len();
    let mut i: usize = 0;
    while i < n
        invariant
            n == files@.len(),
            i <= n,
            result@.len() == i,
            forall|j: int|
                0 <= j < i ==> (#[trigger] result@[j]).source_path@ == files@[j]@ && result@[
                    j
                ].target_path@ == files@[j]@,
        decreases n - i,
    {
        let source: String = files[i].clone();
        let target: String = files[i].clone();
        result.push(PngFile { source_path: source, target_path: target });
        i = i + 1;
    }
    result
}

} // verus!
