//! Library scanning support: which files count as books, and the metadata
//! derived from a book's path.
use crate::strutil::{chars_to_string, lower_of, str_eq, string_to_chars, to_lowercase};
use vstd::prelude::*;

verus! {

/// Metadata of one book in the library.
#[derive(Debug, Clone)]
pub struct BookMetadata {
    pub title: String,
    pub author: String,
    pub path: String,
}

/// The characters after the last occurrence of `c` in `s` (all of `s` when
/// `c` does not occur).
pub open spec fn after_last(s: Seq<char>, c: char) -> Seq<char>
    decreases s.len(),
{
    if s.len() == 0 {
        s
    } else if s.last() == c {
        Seq::empty()
    } else {
        after_last(s.drop_last(), c).push(s.last())
    }
}

/// The characters before the last occurrence of `c` in `s` (empty when `c`
/// does not occur).
pub open spec fn before_last(s: Seq<char>, c: char) -> Seq<char>
    decreases s.len(),
{
    if s.len() == 0 {
        s
    } else if s.last() == c {
        s.drop_last()
    } else {
        before_last(s.drop_last(), c)
    }
}

/// Characterization of `after_last` when `c` occurs last at position `li`.
pub proof fn lemma_after_last_at(s: Seq<char>, c: char, li: int)
    requires
        0 <= li < s.len(),
        s[li] == c,
        forall|j: int| li < j < s.len() ==> s[j] != c,
    ensures
        after_last(s, c) =~= s.subrange(li + 1, s.len() as int),
        before_last(s, c) =~= s.subrange(0, li),
    decreases s.len(),
{
    if li == s.len() - 1 {
    } else {
        let t = s.drop_last();
        assert(forall|j: int| li < j < t.len() ==> #[trigger] t[j] != c);
        lemma_after_last_at(t, c, li);
        assert(t.subrange(li + 1, t.len() as int) =~= s.subrange(li + 1, s.len() - 1));
        assert(after_last(s, c) =~= after_last(t, c).push(s.last()));
    }
}

/// Characterization of `after_last` when `c` does not occur in `s`.
pub proof fn lemma_after_last_absent(s: Seq<char>, c: char)
    requires
        forall|j: int| 0 <= j < s.len() ==> s[j] != c,
    ensures
        after_last(s, c) =~= s,
        before_last(s, c) =~= Seq::<char>::empty(),
    decreases s.len(),
{
    if s.len() > 0 {
        let t = s.drop_last();
        assert(forall|j: int| 0 <= j < t.len() ==> #[trigger] t[j] != c);
        lemma_after_last_absent(t, c);
    }
}

/// Finds the position of the last occurrence of `c` in `v`.
pub fn find_last(v: &Vec<char>, c: char) -> (r: Option<usize>)
    ensures
        match r {
            Some(i) => i < v@.len() && v@[i as int] == c && forall|j: int|
                i < j < v@.len() ==> v@[j] != c,
            None => forall|j: int| 0 <= j < v@.len() ==> v@[j] != c,
        },
{
    let mut i: usize = v.len();
    while i > 0
        invariant
            i <= v@.len(),
            forall|j: int| i <= j < v@.len() ==> v@[j] != c,
        decreases i,
    {
        i = i - 1;
        if v[i] == c {
            return Some(i);
        }
    }
    None
}

/// The file-name part of a path: everything after the last slash.
pub open spec fn spec_file_name(path: Seq<char>) -> Seq<char> {
    after_last(path, '/')
}

/// Whether a file name has an extension: a dot that is neither its first
/// character nor absent.
pub open spec fn spec_has_extension(name: Seq<char>) -> bool {
    exists|i: int| 1 <= i < name.len() && name[i] == '.'
}

/// The extension of a file name that has one: everything after its last
/// dot.
pub open spec fn spec_extension(name: Seq<char>) -> Seq<char> {
    after_last(name, '.')
}

/// The stem of a file name that has an extension: everything before its
/// last dot.
pub open spec fn spec_stem(name: Seq<char>) -> Seq<char> {
    before_last(name, '.')
}

/// Whether a lower-cased extension is one of the book formats the library
/// scans for.
pub open spec fn is_book_extension(ext_lower: Seq<char>) -> bool {
    ext_lower == "pdf"@ || ext_lower == "epub"@ || ext_lower == "cbz"@ || ext_lower == "docx"@
}

/// The metadata a library scan records for one file path, or nothing when
/// the file is not a supported book: its name must have an extension whose
/// lower-cased form is a book format. The title is the file name's stem and
/// the author is unknown.
pub fn book_metadata_for_path(path: &str) -> (r: Option<BookMetadata>)
    ensures
        ({
            let name = spec_file_name(path@);
            match r {
                Some(b) => spec_has_extension(name) && is_book_extension(
                    lower_of(spec_extension(name)),
                ) && b.title@ == spec_stem(name) && b.author@ == "Unknown Author"@ && b.path@
                    == path@,
                None => !(spec_has_extension(name) && is_book_extension(
                    lower_of(spec_extension(name)),
                )),
            }
        }),
{
    let chars = string_to_chars(path);
    let name: Vec<char> = match find_last(&chars, '/') {
        Some(i) => {
            proof {
                lemma_after_last_at(chars@, '/', i as int);
            }
            crate::strutil::subvec(&chars, i + 1, chars.len())
        },
        None => {
            proof {
                lemma_after_last_absent(chars@, '/');
            }
            crate::strutil::subvec(&chars, 0, chars.len())
        },
    };
    proof {
        assert(name@ =~= spec_file_name(path@));
    }
    let dot = find_last(&name, '.');
    match dot {
        None => {
            proof {
                lemma_after_last_absent(name@, '.');
            }
            None
        },
        Some(d) => {
            if d == 0 {
                proof {
                    assert(forall|i: int|
                        1 <= i < name@.len() ==> #[trigger] name@[i] != '.');
                }
                return None;
            }
            proof {
                lemma_after_last_at(name@, '.', d as int);
            }
            let ext = crate::strutil::subvec(&name, d + 1, name.len());
            let ext_s = chars_to_string(&ext);
            let low = to_lowercase(ext_s.as_str());
            let supported = str_eq(low.as_str(), "pdf") || str_eq(low.as_str(), "epub") || str_eq(
                low.as_str(),
                "cbz",
            ) || str_eq(low.as_str(), "docx");
            if !supported {
                return None;
            }
            let stem = crate::strutil::subvec(&name, 0, d);
            let title = chars_to_string(&stem);
            Some(
                BookMetadata {
                    title,
                    author: String::from_str("Unknown Author"),
                    path: path.to_owned(),
                },
            )
        },
    }
}

} // verus!
