use vstd::prelude::*;

use crate::minify::DitheringMode;

verus! {

/// The mode of operation: scan a directory for PNG files, or process a
/// given list of files.
pub enum Mode {
    Directory(Option<String>),
    Files(Vec<String>),
}

/// `s` case-folds (ASCII) to the same characters as `lit`.
pub open spec fn spec_eq_lower(s: Seq<char>, lit: Seq<char>) -> bool {
    s.len() == lit.len() && forall|i: int|
        0 <= i < s.len() ==> crate::file_utils::spec_lower_char(s[i]) == lit[i]
}

/// Compare a string against an all-lowercase word, folding ASCII case.
fn eq_lower(s: &str, lit: &str) -> (r: bool)
    ensures
        r == spec_eq_lower(s@, lit@),
{
    let n: usize = s.unicode_len();
    let m: usize = lit.unicode_len();
    if n != m {
        return false;
    }
    let mut i: usize = 0;
    while i < n
        invariant
            n == s@.len(),
            n == lit@.len(),
            i <= n,
            forall|j: int|
                0 <= j < i ==> crate::file_utils::spec_lower_char(s@[j]) == lit@[j],
        decreases n - i,
    {
        let c: char = s.get_char(i);
        let lc: char = if 'A' <= c && c <= 'Z' {
            ((c as u8) + 32) as char
        } else {
            c
        };
        if lc != lit.get_char(i) {
            return false;
        }
        i = i + 1;
    }
    true
}

/// The dithering mode a name selects, folding ASCII case: `auto`, `none`,
/// `ordered`, `floyd` or `floyd-steinberg`, and `median` or `mediancut`.
/// Any other name selects nothing.
pub open spec fn spec_mode_of_name(s: Seq<char>) -> Option<DitheringMode> {
    if spec_eq_lower(s, "auto"@) {
        Option::Some(DitheringMode::Auto)
    } else if spec_eq_lower(s, "none"@) {
        Option::Some(DitheringMode::Flat)
    } else if spec_eq_lower(s, "ordered"@) {
        Option::Some(DitheringMode::Ordered)
    } else if spec_eq_lower(s, "floyd"@) || spec_eq_lower(s, "floyd-steinberg"@) {
        Option::Some(DitheringMode::FloydSteinberg)
    } else if spec_eq_lower(s, "median"@) || spec_eq_lower(s, "mediancut"@) {
        Option::Some(DitheringMode::MedianCut)
    } else {
        Option::None
    }
}

/// Parse a dithering mode name as the command line spells it.
pub fn parse_dithering_mode(name: &str) -> (r: Option<DitheringMode>)
    ensures
        r == spec_mode_of_name(name@),
{
    if eq_lower(name, "auto") {
        Option::Some(DitheringMode::Auto)
    } else if eq_lower(name, "none") {
        Option::Some(DitheringMode::Flat)
    } else if eq_lower(name, "ordered") {
        Option::Some(DitheringMode::Ordered)
    } else if eq_lower(name, "floyd") || eq_lower(name, "floyd-steinberg") {
        Option::Some(DitheringMode::FloydSteinberg)
    } else if eq_lower(name, "median") || eq_lower(name, "mediancut") {
        Option::Some(DitheringMode::MedianCut)
    } else {
        Option::None
    }
}

} // verus!
