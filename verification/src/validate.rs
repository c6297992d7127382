//! Pre-flight validation of document bytes: emptiness and the magic
//! signature in the initial byte window.
use crate::errors::DocumentError;
use vstd::prelude::*;

verus! {

/// The magic signature every valid document must carry in its head window.
pub open spec fn magic_bytes() -> Seq<u8> {
    seq![0x25u8, 0x50u8, 0x44u8, 0x46u8, 0x2du8]
}

/// True when the signature occurs in `bytes` starting at `i`.
pub open spec fn magic_at(bytes: Seq<u8>, i: int) -> bool {
    0 <= i && i + 5 <= bytes.len() && bytes.subrange(i, i + 5) == magic_bytes()
}

/// True when the signature occurs anywhere in `bytes`.
pub open spec fn has_magic(bytes: Seq<u8>) -> bool {
    exists|i: int| magic_at(bytes, i)
}

/// What `check_header` decides for a file of length `file_len` whose head
/// window is `head`.
pub open spec fn spec_check_header(file_len: u64, head: Seq<u8>) -> Result<(), DocumentError> {
    if file_len == 0 || head.len() == 0 {
        Err(DocumentError::EmptyFile)
    } else if !has_magic(head) {
        Err(DocumentError::InvalidHeader)
    } else {
        Ok(())
    }
}

/// Pre-flight check on a document: `file_len` is the file's total length,
/// `head` its initial byte window (up to the first kilobyte). Empty input is
/// `EmptyFile`; a window without the magic signature is `InvalidHeader`.
pub fn check_header(file_len: u64, head: &Vec<u8>) -> (r: Result<(), DocumentError>)
    ensures
        r == spec_check_header(file_len, head@),
{
    if file_len == 0 || head.len() == 0 {
        return Err(DocumentError::EmptyFile);
    }
    let n = head.len();
    if n < 5 {
        proof {
            assert forall|i: int| !magic_at(head@, i) by {
                if magic_at(head@, i) {
                    assert(i + 5 <= head@.len());
                }
            }
        }
        return Err(DocumentError::InvalidHeader);
    }
    let limit = n - 5;
    let mut i: usize = 0;
    let mut found = false;
    loop
        invariant_except_break
            !found,
        invariant
            n == head@.len(),
            5 <= n,
            limit == n - 5,
            i <= limit,
            forall|j: int| 0 <= j < i ==> !magic_at(head@, j),
        ensures
            found == has_magic(head@),
        decreases limit - i,
    {
        if magic_matches_at(head, i) {
            found = true;
            break ;
        }
        if i == limit {
            proof {
                assert forall|j: int| !magic_at(head@, j) by {
                    if magic_at(head@, j) {
                        assert(0 <= j && j + 5 <= n);
                    }
                }
            }
            break ;
        }
        i = i + 1;
    }
    if found {
        Ok(())
    } else {
        Err(DocumentError::InvalidHeader)
    }
}

/// Guards a page access: a requested index at or past the page count is
/// `PageIndexOutOfRange`.
pub fn check_page_index(page_index: u32, page_count: u32) -> (r: Result<(), DocumentError>)
    ensures
        page_index < page_count <==> r is Ok,
        page_index >= page_count <==> r == Result::<(), DocumentError>::Err(
            DocumentError::PageIndexOutOfRange,
        ),
{
    if page_index < page_count {
        Ok(())
    } else {
        Err(DocumentError::PageIndexOutOfRange)
    }
}

/// Decides whether the magic signature sits at position `i` of `head`.
fn magic_matches_at(head: &Vec<u8>, i: usize) -> (r: bool)
    requires
        i + 5 <= head@.len(),
    ensures
        r == magic_at(head@, i as int),
{
    let hl = head.len();
    proof {
        assert(i + 4 < hl);
    }
    let r = head[i] == 0x25u8 && head[i + 1] == 0x50u8 && head[i + 2] == 0x44u8 && head[i + 3]
        == 0x46u8 && head[i + 4] == 0x2du8;
    proof {
        if r {
            assert(head@.subrange(i as int, i + 5) =~= magic_bytes());
        } else {
            if magic_at(head@, i as int) {
                assert(head@.subrange(i as int, i + 5)[0] == head@[i as int]);
                assert(head@.subrange(i as int, i + 5)[1] == head@[i + 1]);
                assert(head@.subrange(i as int, i + 5)[2] == head@[i + 2]);
                assert(head@.subrange(i as int, i + 5)[3] == head@[i + 3]);
                assert(head@.subrange(i as int, i + 5)[4] == head@[i + 4]);
            }
        }
    }
    r
}

} // verus!
