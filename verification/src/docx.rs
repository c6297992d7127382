//! Conversion of a word-processing document's block structure into the
//! HTML the reader displays: paragraphs with bold/italic runs; tables are
//! marked unsupported; anything else is dropped.
use crate::strutil::{chars_to_string, push_all, string_to_chars};
use vstd::prelude::*;

verus! {

/// One formatted run of text inside a paragraph.
#[derive(Debug, Clone)]
pub struct DocxRun {
    pub text: String,
    pub bold: bool,
    pub italic: bool,
}

/// One block of the document body.
#[derive(Debug, Clone)]
pub enum DocxBlock {
    /// A paragraph of formatted runs.
    Paragraph(Vec<DocxRun>),
    /// A table, which the conversion does not support.
    Table,
    /// Any other block, which the conversion ignores.
    Other,
}

/// The block structure of one document.
#[derive(Debug, Clone)]
pub struct DocxDocument {
    pub blocks: Vec<DocxBlock>,
}

/// The HTML of one run: its text between the tags its formatting asks for.
pub open spec fn spec_run_html(r: DocxRun) -> Seq<char> {
    let open = (if r.bold {
        "<b>"@
    } else {
        Seq::<char>::empty()
    }) + (if r.italic {
        "<i>"@
    } else {
        Seq::<char>::empty()
    });
    let close = (if r.italic {
        "</i>"@
    } else {
        Seq::<char>::empty()
    }) + (if r.bold {
        "</b>"@
    } else {
        Seq::<char>::empty()
    });
    open + r.text@ + close
}

/// The HTML of the runs from position `i` on.
pub open spec fn spec_runs_html(runs: Seq<DocxRun>, i: int) -> Seq<char>
    decreases runs.len() - i,
{
    if i < 0 || i >= runs.len() {
        Seq::empty()
    } else {
        spec_run_html(runs[i]) + spec_runs_html(runs, i + 1)
    }
}

/// The HTML of one block.
pub open spec fn spec_block_html(b: DocxBlock) -> Seq<char> {
    match b {
        DocxBlock::Paragraph(runs) => "<p>"@ + spec_runs_html(runs@, 0) + "</p>"@,
        DocxBlock::Table => "<p><i>[Table - Not Supported]</i></p>"@,
        DocxBlock::Other => Seq::empty(),
    }
}

/// The HTML of the blocks from position `i` on.
pub open spec fn spec_blocks_html(bs: Seq<DocxBlock>, i: int) -> Seq<char>
    decreases bs.len() - i,
{
    if i < 0 || i >= bs.len() {
        Seq::empty()
    } else {
        spec_block_html(bs[i]) + spec_blocks_html(bs, i + 1)
    }
}

/// The HTML of a whole document: its blocks inside the content wrapper.
pub open spec fn spec_docx_html(d: DocxDocument) -> Seq<char> {
    "<div class='docx-content'>"@ + spec_blocks_html(d.blocks@, 0) + "</div>"@
}

fn push_str(out: &mut Vec<char>, s: &str)
    ensures
        final(out)@ == old(out)@ + s@,
{
    let v = string_to_chars(s);
    push_all(out, &v);
}

/// Renders one document as HTML, paragraph by paragraph: bold and italic
/// runs keep their tags, tables become an unsupported-content note, and
/// other blocks are dropped.
pub fn docx_to_html(d: &DocxDocument) -> (r: String)
    ensures
        r@ == spec_docx_html(*d),
{
    let mut out: Vec<char> = Vec::new();
    push_str(&mut out, "<div class='docx-content'>");
    let n = d.blocks.len();
    let mut i: usize = 0;
    while i < n
        invariant
            n == d.blocks@.len(),
            i <= n,
            out@ + spec_blocks_html(d.blocks@, i as int) =~= "<div class='docx-content'>"@
                + spec_blocks_html(d.blocks@, 0),
        decreases n - i,
    {
        let ghost pre = out@;
        match &d.blocks[i] {
            DocxBlock::Paragraph(runs) => {
                push_str(&mut out, "<p>");
                let m = runs.len();
                let mut k: usize = 0;
                while k < m
                    invariant
                        m == runs@.len(),
                        k <= m,
                        out@ + spec_runs_html(runs@, k as int) =~= pre + "<p>"@ + spec_runs_html(
                            runs@,
                            0,
                        ),
                    decreases m - k,
                {
                    let run = &runs[k];
                    if run.bold {
                        push_str(&mut out, "<b>");
                    }
                    if run.italic {
                        push_str(&mut out, "<i>");
                    }
                    push_str(&mut out, run.text.as_str());
                    if run.italic {
                        push_str(&mut out, "</i>");
                    }
                    if run.bold {
                        push_str(&mut out, "</b>");
                    }
                    proof {
                        assert(out@ + spec_runs_html(runs@, k + 1) =~= pre + "<p>"@
                            + spec_runs_html(runs@, 0));
                    }
                    k = k + 1;
                }
                push_str(&mut out, "</p>");
                proof {
                    assert(out@ =~= pre + spec_block_html(d.blocks@[i as int]));
                }
            },
            DocxBlock::Table => {
                push_str(&mut out, "<p><i>[Table - Not Supported]</i></p>");
            },
            DocxBlock::Other => {},
        }
        proof {
            assert(out@ + spec_blocks_html(d.blocks@, i + 1) =~= pre + spec_block_html(
                d.blocks@[i as int],
            ) + spec_blocks_html(d.blocks@, i + 1));
            assert(out@ + spec_blocks_html(d.blocks@, i + 1) =~= "<div class='docx-content'>"@
                + spec_blocks_html(d.blocks@, 0));
        }
        i = i + 1;
    }
    push_str(&mut out, "</div>");
    proof {
        assert(out@ =~= spec_docx_html(*d));
    }
    chars_to_string(&out)
}

} // verus!
