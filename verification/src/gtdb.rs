use vstd::prelude::*;

verus! {

/// One of the four data files a release provides, with its path or URL:
/// the archaeal and bacterial reference trees and metadata tables.
#[derive(Debug)]
pub enum DomainFile {
    ArTree(String),
    BacTree(String),
    ArMetadata(String),
    BacMetadata(String),
}

/// The name starts with `ar`.
pub open spec fn starts_with_ar(s: Seq<char>) -> bool {
    s.len() >= 2 && s[0] == 'a' && s[1] == 'r'
}

/// The name starts with `bac`.
pub open spec fn starts_with_bac(s: Seq<char>) -> bool {
    s.len() >= 3 && s[0] == 'b' && s[1] == 'a' && s[2] == 'c'
}

/// The name ends with `.tree`.
pub open spec fn ends_with_tree(s: Seq<char>) -> bool {
    s.len() >= 5 && s[s.len() - 5] == '.' && s[s.len() - 4] == 't' && s[s.len() - 3] == 'r'
        && s[s.len() - 2] == 'e' && s[s.len() - 1] == 'e'
}

/// The word `metadata` occurs at position `i`.
pub open spec fn metadata_at(s: Seq<char>, i: int) -> bool {
    &&& 0 <= i
    &&& i + 8 <= s.len()
    &&& s[i] == 'm'
    &&& s[i + 1] == 'e'
    &&& s[i + 2] == 't'
    &&& s[i + 3] == 'a'
    &&& s[i + 4] == 'd'
    &&& s[i + 5] == 'a'
    &&& s[i + 6] == 't'
    &&& s[i + 7] == 'a'
}

/// The name holds the word `metadata` somewhere.
pub open spec fn has_metadata(s: Seq<char>) -> bool {
    exists|i: int| metadata_at(s, i)
}

/// The four kinds of domain file, without their paths.
pub ghost enum DomainKind {
    ArTree,
    BacTree,
    ArMetadata,
    BacMetadata,
}

/// The kind of domain file a name of this shape is classified as, if any:
/// an `ar`/`bac` prefix picks the domain, a `.tree` suffix picks the tree
/// kind, the word `metadata` the metadata kind, tried in that order.
pub open spec fn domain_kind_of(name: Seq<char>) -> Option<DomainKind> {
    if starts_with_ar(name) && ends_with_tree(name) {
        Some(DomainKind::ArTree)
    } else if starts_with_bac(name) && ends_with_tree(name) {
        Some(DomainKind::BacTree)
    } else if starts_with_ar(name) && has_metadata(name) {
        Some(DomainKind::ArMetadata)
    } else if starts_with_bac(name) && has_metadata(name) {
        Some(DomainKind::BacMetadata)
    } else {
        None
    }
}

fn exec_starts_with_ar(s: &String) -> (r: bool)
    ensures
        r == starts_with_ar(s@),
{
    s.as_str().unicode_len() >= 2 && s.as_str().get_char(0) == 'a' && s.as_str().get_char(1) == 'r'
}

fn exec_starts_with_bac(s: &String) -> (r: bool)
    ensures
        r == starts_with_bac(s@),
{
    s.as_str().unicode_len() >= 3 && s.as_str().get_char(0) == 'b' && s.as_str().get_char(1) == 'a'
        && s.as_str().get_char(2) == 'c'
}

fn exec_ends_with_tree(s: &String) -> (r: bool)
    ensures
        r == ends_with_tree(s@),
{
    let n = s.as_str().unicode_len();
    n >= 5 && s.as_str().get_char(n - 5) == '.' && s.as_str().get_char(n - 4) == 't'
        && s.as_str().get_char(n - 3) == 'r' && s.as_str().get_char(n - 2) == 'e'
        && s.as_str().get_char(n - 1) == 'e'
}

fn exec_metadata_at(s: &String, i: usize) -> (r: bool)
    requires
        i <= s@.len(),
    ensures
        r == metadata_at(s@, i as int),
{
    let n = s.as_str().unicode_len();
    n - i >= 8 && s.as_str().get_char(i) == 'm' && s.as_str().get_char(i + 1) == 'e'
        && s.as_str().get_char(i + 2) == 't' && s.as_str().get_char(i + 3) == 'a'
        && s.as_str().get_char(i + 4) == 'd' && s.as_str().get_char(i + 5) == 'a'
        && s.as_str().get_char(i + 6) == 't' && s.as_str().get_char(i + 7) == 'a'
}

fn exec_has_metadata(s: &String) -> (r: bool)
    ensures
        r == has_metadata(s@),
{
    let n = s.as_str().unicode_len();
    let mut i: usize = 0;
    while i < n
        invariant
            n == s@.len(),
            i <= n,
            forall|k: int| 0 <= k < i ==> !metadata_at(s@, k),
        decreases n - i,
    {
        if exec_metadata_at(s, i) {
            return true;
        }
        i += 1;
    }
    false
}

/// Classifies one directory entry by its file name, carrying its path into
/// the chosen variant.
pub fn classify_domain_file(file_name: &String, file_path: String) -> (r: Option<DomainFile>)
    ensures
        match r {
            Some(DomainFile::ArTree(p)) => domain_kind_of(file_name@) == Some(DomainKind::ArTree)
                && p@ == file_path@,
            Some(DomainFile::BacTree(p)) => domain_kind_of(file_name@) == Some(DomainKind::BacTree)
                && p@ == file_path@,
            Some(DomainFile::ArMetadata(p)) => domain_kind_of(file_name@) == Some(
                DomainKind::ArMetadata,
            ) && p@ == file_path@,
            Some(DomainFile::BacMetadata(p)) => domain_kind_of(file_name@) == Some(
                DomainKind::BacMetadata,
            ) && p@ == file_path@,
            None => domain_kind_of(file_name@) is None,
        },
{
    if exec_starts_with_ar(file_name) && exec_ends_with_tree(file_name) {
        Some(DomainFile::ArTree(file_path))
    } else if exec_starts_with_bac(file_name) && exec_ends_with_tree(file_name) {
        Some(DomainFile::BacTree(file_path))
    } else if exec_starts_with_ar(file_name) && exec_has_metadata(file_name) {
        Some(DomainFile::ArMetadata(file_path))
    } else if exec_starts_with_bac(file_name) && exec_has_metadata(file_name) {
        Some(DomainFile::BacMetadata(file_path))
    } else {
        None
    }
}

} // verus!
