//! Comic-archive page bookkeeping: which archive entries count as image
//! pages, their stable sorted order, and page selection by index.
use crate::errors::DocumentError;
use crate::strutil::{lower_of, spec_ends_with, str_ends_with, to_lowercase};
use vstd::multiset::Multiset;
use vstd::prelude::*;

verus! {

broadcast use vstd::seq_lib::group_to_multiset_ensures;

/// One extracted page: its pixel dimensions and raw RGBA bytes.
#[derive(Debug)]
pub struct CbzPageData {
    pub width: i32,
    pub height: i32,
    pub rgba_bytes: Vec<u8>,
}

/// Whether an already-lower-cased file name carries a supported image
/// extension.
pub open spec fn is_image_name(lower: Seq<char>) -> bool {
    ||| spec_ends_with(lower, ".jpg"@)
    ||| spec_ends_with(lower, ".jpeg"@)
    ||| spec_ends_with(lower, ".png"@)
    ||| spec_ends_with(lower, ".gif"@)
    ||| spec_ends_with(lower, ".webp"@)
}

/// Decides `is_image_name` on an already-lower-cased name.
pub fn has_image_extension(name_lower: &str) -> (r: bool)
    ensures
        r == is_image_name(name_lower@),
{
    str_ends_with(name_lower, ".jpg") || str_ends_with(name_lower, ".jpeg") || str_ends_with(
        name_lower,
        ".png",
    ) || str_ends_with(name_lower, ".gif") || str_ends_with(name_lower, ".webp")
}

/// Whether a file name, compared case-insensitively, is a supported image
/// format.
pub fn is_image_file(name: &str) -> (r: bool)
    ensures
        r == is_image_name(lower_of(name@)),
{
    let lower = to_lowercase(name);
    has_image_extension(lower.as_str())
}

/// Code-point lexicographic order on character sequences; for valid text
/// this coincides with the byte order `String`'s own comparison uses,
/// because UTF-8 preserves code-point order.
pub open spec fn lex_le(a: Seq<char>, b: Seq<char>) -> bool
    decreases a.len(),
{
    if a.len() == 0 {
        true
    } else if b.len() == 0 {
        false
    } else if a[0] != b[0] {
        a[0] < b[0]
    } else {
        lex_le(a.drop_first(), b.drop_first())
    }
}

/// Any two character sequences are ordered one way or the other.
pub proof fn lemma_lex_total(a: Seq<char>, b: Seq<char>)
    ensures
        lex_le(a, b) || lex_le(b, a),
    decreases a.len(),
{
    if a.len() > 0 && b.len() > 0 {
        if a[0] == b[0] {
            lemma_lex_total(a.drop_first(), b.drop_first());
        }
    }
}

/// Decides `lex_le` on string slices.
pub fn str_lex_le(a: &str, b: &str) -> (r: bool)
    ensures
        r == lex_le(a@, b@),
{
    let an = a.unicode_len();
    let bn = b.unicode_len();
    let mut i: usize = 0;
    proof {
        assert(a@.subrange(0, an as int) =~= a@);
        assert(b@.subrange(0, bn as int) =~= b@);
    }
    loop
        invariant
            an == a@.len(),
            bn == b@.len(),
            i <= an,
            i <= bn,
            lex_le(a@, b@) == lex_le(
                a@.subrange(i as int, an as int),
                b@.subrange(i as int, bn as int),
            ),
        ensures
            ({
                let ra = a@.subrange(i as int, an as int);
                let rb = b@.subrange(i as int, bn as int);
                lex_le(a@, b@) == lex_le(ra, rb) && (ra.len() == 0 || rb.len() == 0 || ra[0]
                    != rb[0])
            }),
        decreases an - i,
    {
        if i == an || i == bn {
            break ;
        }
        let ca = a.get_char(i);
        let cb = b.get_char(i);
        if ca != cb {
            break ;
        }
        proof {
            let ra = a@.subrange(i as int, an as int);
            let rb = b@.subrange(i as int, bn as int);
            assert(ra[0] == rb[0]);
            assert(ra.drop_first() =~= a@.subrange(i + 1, an as int));
            assert(rb.drop_first() =~= b@.subrange(i + 1, bn as int));
        }
        i = i + 1;
    }
    if i == an {
        proof {
            assert(a@.subrange(i as int, an as int).len() == 0);
        }
        true
    } else if i == bn {
        proof {
            assert(b@.subrange(i as int, bn as int).len() == 0);
            assert(a@.subrange(i as int, an as int).len() > 0);
        }
        false
    } else {
        let ca = a.get_char(i);
        let cb = b.get_char(i);
        proof {
            let ra = a@.subrange(i as int, an as int);
            let rb = b@.subrange(i as int, bn as int);
            assert(ra[0] == a@[i as int] && rb[0] == b@[i as int]);
        }
        (ca as u32) < (cb as u32)
    }
}

/// The views of a vector of strings.
pub open spec fn name_views(v: Seq<String>) -> Seq<Seq<char>> {
    v.map_values(|s: String| s@)
}

/// Sorts names into code-point order, keeping exactly the same names.
pub fn sort_names(names: Vec<String>) -> (r: Vec<String>)
    ensures
        name_views(r@).to_multiset() == name_views(names@).to_multiset(),
        forall|i: int, j: int| 0 <= i < j < r@.len() ==> lex_le(#[trigger] r@[i]@, #[trigger] r@[j]@),
{
    let mut rest = names;
    let mut out: Vec<String> = Vec::new();
    let ghost orig = name_views(rest@);
    while rest.len() > 0
        invariant
            name_views(out@).to_multiset().add(name_views(rest@).to_multiset())
                =~= orig.to_multiset(),
            forall|i: int, j: int|
                0 <= i < j < out@.len() ==> lex_le(#[trigger] out@[i]@, #[trigger] out@[j]@),
            forall|i: int, j: int|
                0 <= i < out@.len() && 0 <= j < rest@.len() ==> lex_le(
                    #[trigger] out@[i]@,
                    #[trigger] rest@[j]@,
                ),
        decreases rest@.len(),
    {
        let mut mi: usize = 0;
        let mut k: usize = 1;
        proof {
            lemma_lex_total(rest@[0]@, rest@[0]@);
        }
        while k < rest.len()
            invariant
                rest@.len() > 0,
                mi < k <= rest@.len(),
                forall|j: int| 0 <= j < k ==> lex_le(rest@[mi as int]@, #[trigger] rest@[j]@),
            decreases rest@.len() - k,
        {
            if str_lex_le(rest[k].as_str(), rest[mi].as_str()) {
                proof {
                    assert forall|j: int| 0 <= j < k + 1 implies lex_le(
                        rest@[k as int]@,
                        #[trigger] rest@[j]@,
                    ) by {
                        if j < k {
                            lemma_lex_trans(rest@[k as int]@, rest@[mi as int]@, rest@[j]@);
                        } else {
                            lemma_lex_total(rest@[k as int]@, rest@[k as int]@);
                        }
                    }
                }
                mi = k;
            } else {
                proof {
                    lemma_lex_total(rest@[mi as int]@, rest@[k as int]@);
                }
            }
            k = k + 1;
        }
        let ghost old_out = out@;
        let ghost old_rest = rest@;
        let x = rest.remove(mi);
        out.push(x);
        proof {
            assert(name_views(out@) =~= name_views(old_out).push(old_rest[mi as int]@));
            assert(name_views(rest@) =~= name_views(old_rest).remove(mi as int));
            assert(name_views(old_rest)[mi as int] == old_rest[mi as int]@);
            assert(name_views(out@).to_multiset() =~= name_views(old_out).to_multiset().insert(
                old_rest[mi as int]@,
            ));
            assert(name_views(rest@).to_multiset() =~= name_views(old_rest).to_multiset().remove(
                old_rest[mi as int]@,
            ));
            assert(name_views(old_rest).to_multiset().count(old_rest[mi as int]@) > 0);
            assert(name_views(out@).to_multiset().add(name_views(rest@).to_multiset())
                =~= name_views(old_out).to_multiset().add(name_views(old_rest).to_multiset()));
            assert forall|j: int| 0 <= j < rest@.len() implies lex_le(
                old_rest[mi as int]@,
                #[trigger] rest@[j]@,
            ) by {
                if j < mi {
                    assert(rest@[j] == old_rest[j]);
                } else {
                    assert(rest@[j] == old_rest[j + 1]);
                }
            }
        }
    }
    proof {
        assert(name_views(rest@).to_multiset() =~= Multiset::<Seq<char>>::empty());
        assert(name_views(out@).to_multiset() =~= orig.to_multiset());
    }
    out
}

/// `lex_le` is transitive.
pub proof fn lemma_lex_trans(a: Seq<char>, b: Seq<char>, c: Seq<char>)
    requires
        lex_le(a, b),
        lex_le(b, c),
    ensures
        lex_le(a, c),
    decreases a.len(),
{
    if a.len() > 0 && b.len() > 0 && c.len() > 0 {
        if a[0] == b[0] && b[0] == c[0] {
            lemma_lex_trans(a.drop_first(), b.drop_first(), c.drop_first());
        }
    }
}

/// The image pages of an archive: the entries that are files with a
/// supported image extension, in sorted order. The input pairs each entry
/// name with whether the entry is a directory.
pub fn image_entries(entries: &Vec<(String, bool)>) -> (r: Vec<String>)
    ensures
        forall|i: int| 0 <= i < r@.len() ==> is_image_name(lower_of(#[trigger] r@[i]@)),
        forall|i: int, j: int| 0 <= i < j < r@.len() ==> lex_le(#[trigger] r@[i]@, #[trigger] r@[j]@),
        name_views(r@).to_multiset() =~= name_views(
            entries@.filter(
                |e: (String, bool)| !e.1 && is_image_name(lower_of(e.0@)),
            ).map_values(|e: (String, bool)| e.0),
        ).to_multiset(),
{
    let n = entries.len();
    let mut names: Vec<String> = Vec::new();
    let mut i: usize = 0;
    while i < n
        invariant
            n == entries@.len(),
            i <= n,
            names@ =~= entries@.subrange(0, i as int).filter(
                |e: (String, bool)| !e.1 && is_image_name(lower_of(e.0@)),
            ).map_values(|e: (String, bool)| e.0),
            forall|k: int| 0 <= k < names@.len() ==> is_image_name(lower_of(#[trigger] names@[k]@)),
        decreases n - i,
    {
        let (name, is_dir) = (&entries[i].0, entries[i].1);
        let keep = !is_dir && is_image_file(name.as_str());
        if keep {
            names.push(name.clone());
        }
        proof {
            let pred = |e: (String, bool)| !e.1 && is_image_name(lower_of(e.0@));
            let pre = entries@.subrange(0, i as int);
            let px = pre.push(entries@[i as int]);
            assert(entries@.subrange(0, i + 1) =~= px);
            assert(px.drop_last() =~= pre);
            assert(px.last() == entries@[i as int]);
            reveal_with_fuel(Seq::<_>::filter, 2);
            assert(px.filter(pred) == if pred(entries@[i as int]) {
                pre.filter(pred).push(entries@[i as int])
            } else {
                pre.filter(pred)
            });
            if keep {
                assert(names@ =~= px.filter(pred).map_values(|e: (String, bool)| e.0));
            } else {
                assert(names@ =~= px.filter(pred).map_values(|e: (String, bool)| e.0));
            }
        }
        i = i + 1;
    }
    proof {
        assert(entries@.subrange(0, n as int) =~= entries@);
    }
    let sorted = sort_names(names);
    proof {
        assert forall|i: int| 0 <= i < sorted@.len() implies is_image_name(
            lower_of(#[trigger] sorted@[i]@),
        ) by {
            assert(name_views(sorted@)[i] == sorted@[i]@);
            assert(name_views(sorted@).contains(sorted@[i]@));
            assert(name_views(sorted@).to_multiset().count(sorted@[i]@) > 0);
            assert(name_views(names@).to_multiset().count(sorted@[i]@) > 0);
            assert(name_views(names@).contains(sorted@[i]@));
            let j = choose|j: int|
                0 <= j < name_views(names@).len() && name_views(names@)[j] == sorted@[i]@;
            assert(names@[j]@ == sorted@[i]@);
        }
    }
    sorted
}

/// Picks the archive entry name of page `index` from the sorted image
/// entries; a negative or too-large index is `PageIndexOutOfRange`.
pub fn select_page_name(entries: &Vec<String>, index: i32) -> (r: Result<String, DocumentError>)
    ensures
        index < 0 || index as int >= entries@.len() <==> r == Result::<
            String,
            DocumentError,
        >::Err(DocumentError::PageIndexOutOfRange),
        0 <= index < entries@.len() ==> r is Ok && r->Ok_0@ == entries@[index as int]@,
{
    if index < 0 {
        return Err(DocumentError::PageIndexOutOfRange);
    }
    let idx = index as usize;
    if idx >= entries.len() {
        return Err(DocumentError::PageIndexOutOfRange);
    }
    Ok(entries[idx].clone())
}

} // verus!
