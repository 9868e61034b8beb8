//! A document that is open in the editor: its text and its line index.
use core::ops::Range;
use vstd::prelude::*;
use vstd::string::{StringExecFns, StringSliceAdditionalSpecFns};
use vstd::utf8::{
    decode_utf8, encode_utf8, encode_utf8_decode_utf8, encode_utf8_valid_utf8, is_char_boundary,
    is_char_boundary_start_end_of_seq,
};

use crate::line_index::LineIndex;
use crate::outline::Outline;
use crate::script::Script;
use crate::walker::{outline, outline_of};

verus! {

/// The last character boundary at or before `i`.
pub open spec fn boundary_before(b: Seq<u8>, i: int) -> int
    decreases i,
{
    if i <= 0 || is_char_boundary(b, i) {
        i
    } else {
        boundary_before(b, i - 1)
    }
}

/// Where an edit of `range` begins: clamped to the text and moved to a character
/// boundary.
pub open spec fn edit_start(b: Seq<u8>, range: Range<usize>) -> int {
    boundary_before(
        b,
        if range.start < b.len() {
            range.start as int
        } else {
            b.len() as int
        },
    )
}

/// Where an edit of `range` ends.
pub open spec fn edit_end(b: Seq<u8>, range: Range<usize>) -> int {
    boundary_before(
        b,
        if range.end >= b.len() {
            b.len() as int
        } else if range.end < range.start {
            if range.start < b.len() {
                range.start as int
            } else {
                b.len() as int
            }
        } else {
            range.end as int
        },
    )
}

/// The text after an edit: what stood in the range is replaced.
pub open spec fn edited(b: Seq<u8>, range: Range<usize>, replacement: Seq<u8>) -> Seq<u8> {
    b.subrange(0, edit_start(b, range)) + replacement + b.subrange(
        edit_end(b, range),
        b.len() as int,
    )
}

pub(crate) proof fn lemma_boundary_before(b: Seq<u8>, i: int)
    requires
        0 <= i <= b.len(),
        vstd::utf8::valid_utf8(b),
    ensures
        0 <= boundary_before(b, i) <= i,
        is_char_boundary(b, boundary_before(b, i)),
    decreases i,
{
    is_char_boundary_start_end_of_seq(b);
    if i > 0 && !is_char_boundary(b, i) {
        lemma_boundary_before(b, i - 1);
    }
}

proof fn lemma_boundary_monotone(b: Seq<u8>, i: int, j: int)
    requires
        0 <= i <= j <= b.len(),
        vstd::utf8::valid_utf8(b),
    ensures
        boundary_before(b, i) <= boundary_before(b, j),
    decreases j,
{
    lemma_boundary_before(b, i);
    if i < j && !is_char_boundary(b, j) {
        lemma_boundary_monotone(b, i, j - 1);
    }
}

/// The bytes of a joined text.
pub proof fn lemma_encode_concat(a: Seq<char>, z: Seq<char>)
    ensures
        encode_utf8(a + z) == encode_utf8(a) + encode_utf8(z),
    decreases a.len(),
{
    if a.len() == 0 {
        assert(a + z =~= z);
        assert(encode_utf8(a) + encode_utf8(z) =~= encode_utf8(z));
    } else {
        lemma_encode_concat(a.drop_first(), z);
        assert((a + z).drop_first() =~= a.drop_first() + z);
        assert((a + z)[0] == a[0]);
        assert(encode_utf8(a + z) =~= encode_utf8(a) + encode_utf8(z));
    }
}

pub(crate) fn floor_char_boundary(s: &str, i: usize) -> (r: usize)
    requires
        i <= s.spec_bytes().len(),
    ensures
        r == boundary_before(s.spec_bytes(), i as int),
        is_char_boundary(s.spec_bytes(), r as int),
        r <= i,
{
    let mut p: usize = i;
    proof {
        encode_utf8_valid_utf8(s@);
        lemma_boundary_before(s.spec_bytes(), i as int);
    }
    while p > 0 && !s.is_char_boundary(p)
        invariant
            p <= i,
            boundary_before(s.spec_bytes(), i as int) == boundary_before(
                s.spec_bytes(),
                p as int,
            ),
        decreases p,
    {
        p = p - 1;
    }
    p
}

/// Where an edit of `range` begins and ends.
fn edit_bounds(text: &str, range: &Range<usize>) -> (r: (usize, usize))
    ensures
        r.0 == edit_start(text.spec_bytes(), *range),
        r.1 == edit_end(text.spec_bytes(), *range),
        r.0 <= r.1 <= text.spec_bytes().len(),
        is_char_boundary(text.spec_bytes(), r.0 as int),
        is_char_boundary(text.spec_bytes(), r.1 as int),
{
    let len = text.as_bytes().len();
    proof {
        encode_utf8_valid_utf8(text@);
    }
    let clamped_start: usize = if range.start < len {
        range.start
    } else {
        len
    };
    let clamped_end: usize = if range.end >= len {
        len
    } else if range.end < range.start {
        clamped_start
    } else {
        range.end
    };
    let start = floor_char_boundary(text, clamped_start);
    let end = floor_char_boundary(text, clamped_end);
    proof {
        lemma_boundary_monotone(text.spec_bytes(), clamped_start as int, clamped_end as int);
    }
    (start, end)
}

/// A document: its text, kept together with its line index, and its version.
pub struct Document {
    text: String,
    line_index: LineIndex,
    version: i32,
}

impl Document {
    #[verifier::type_invariant]
    spec fn indexed(self) -> bool {
        self.line_index@ == encode_utf8(self.text@)
    }

    /// The bytes of the text.
    pub closed spec fn bytes(self) -> Seq<u8> {
        encode_utf8(self.text@)
    }

    pub closed spec fn spec_version(self) -> i32 {
        self.version
    }

    pub fn new(text: String, version: i32) -> (doc: Self)
        requires
            encode_utf8(text@).len() < u32::MAX,
        ensures
            doc.bytes() == encode_utf8(text@),
            doc.spec_version() == version,
    {
        let line_index = LineIndex::new(text.as_str());
        Document { text, line_index, version }
    }

    /// A copy of a document's text under another version.
    pub fn copy(&self, version: i32) -> (doc: Self)
        ensures
            doc.bytes() == self.bytes(),
            doc.spec_version() == version,
    {
        proof {
            use_type_invariant(self);
        }
        let _ = self.line_index.line_count();
        Document::new(self.text.clone(), version)
    }

    pub fn text(&self) -> (s: &str)
        ensures
            s.spec_bytes() == self.bytes(),
            s@ == decode_utf8(self.bytes()),
            self.bytes().len() < u32::MAX,
    {
        proof {
            use_type_invariant(self);
            encode_utf8_decode_utf8(self.text@);
        }
        let _ = self.line_index.line_count();
        self.text.as_str()
    }

    pub fn version(&self) -> (v: i32)
        ensures
            v == self.spec_version(),
    {
        self.version
    }

    pub fn line_index(&self) -> (li: &LineIndex)
        ensures
            li@ == self.bytes(),
    {
        proof {
            use_type_invariant(self);
        }
        &self.line_index
    }

    pub fn set_version(&mut self, version: i32)
        ensures
            final(self).bytes() == old(self).bytes(),
            final(self).spec_version() == version,
    {
        proof {
            use_type_invariant(&*self);
        }
        self.version = version;
    }

    /// Replaces the whole text. An edit of all that is there does the same.
    pub fn replace(&mut self, text: String)
        requires
            encode_utf8(text@).len() < u32::MAX,
        ensures
            final(self).bytes() == encode_utf8(text@),
            final(self).bytes() == edited(
                old(self).bytes(),
                Range { start: 0, end: old(self).bytes().len() as usize },
                encode_utf8(text@),
            ),
            final(self).spec_version() == old(self).spec_version(),
    {
        let len = self.text.as_str().as_bytes().len();
        proof {
            encode_utf8_valid_utf8(self.text@);
            replacing_is_editing_the_whole_text(self.bytes(), 0..len, encode_utf8(text@));
        }
        let version = self.version;
        *self = Document::new(text, version);
    }

    /// Whether the text stays of a length that positions can count if the range is
    /// replaced.
    pub fn edit_fits(&self, range: &Range<usize>, replacement: &str) -> (r: bool)
        ensures
            r == (edited(self.bytes(), *range, replacement.spec_bytes()).len() < u32::MAX),
    {
        let ghost b = self.bytes();
        let text = self.text.as_str();
        let len = text.as_bytes().len();
        proof {
            encode_utf8_valid_utf8(self.text@);
        }
        let (start, end) = edit_bounds(text, range);
        let kept: usize = len - (end - start);
        let added: usize = replacement.as_bytes().len();
        let limit: u64 = u32::MAX as u64;
        (kept as u64) < limit && (added as u64) < limit - kept as u64
    }

    /// Replaces a byte range, clamped to the text and to character boundaries.
    pub fn edit(&mut self, range: Range<usize>, replacement: &str)
        requires
            edited(old(self).bytes(), range, replacement.spec_bytes()).len() < u32::MAX,
        ensures
            final(self).bytes() == edited(old(self).bytes(), range, replacement.spec_bytes()),
            final(self).spec_version() == old(self).spec_version(),
    {
        let ghost b = self.bytes();
        let text = self.text.as_str();
        let (start, end) = edit_bounds(text, &range);
        let (head, _) = text.split_at(start);
        let (_, tail) = text.split_at(end);
        let mut out = head.to_owned();
        out.append(replacement);
        out.append(tail);
        proof {
            lemma_encode_concat(head@, replacement@);
            lemma_encode_concat(head@ + replacement@, tail@);
            assert(encode_utf8(out@) =~= edited(b, range, replacement.spec_bytes()));
        }
        let version = self.version;
        *self = Document::new(out, version);
    }

    /// The outline of the text as it is.
    pub fn outline(&self) -> (out: Outline)
        ensures
            out@ == outline_of(self.bytes()),
    {
        outline(&Script::new(self.text.as_str()))
    }
}

// ----------------------------------------------------------------------- laws
/// An edit leaves the text before and after the range as it was.
pub proof fn edits_are_local(b: Seq<u8>, range: Range<usize>, replacement: Seq<u8>)
    requires
        vstd::utf8::valid_utf8(b),
        b.len() <= usize::MAX,
    ensures
        ({
            let start = edit_start(b, range);
            let end = edit_end(b, range);
            let after = edited(b, range, replacement);
            &&& 0 <= start <= end <= b.len()
            &&& after.len() == b.len() - (end - start) + replacement.len()
            &&& after.subrange(0, start) == b.subrange(0, start)
            &&& after.subrange(start, start + replacement.len()) == replacement
            &&& after.subrange(start + replacement.len(), after.len() as int) == b.subrange(
                end,
                b.len() as int,
            )
        }),
{
    let start = edit_start(b, range);
    let end = edit_end(b, range);
    let after = edited(b, range, replacement);
    let cs = if range.start < b.len() {
        range.start as int
    } else {
        b.len() as int
    };
    let ce = if range.end >= b.len() {
        b.len() as int
    } else if range.end < range.start {
        cs
    } else {
        range.end as int
    };
    lemma_boundary_before(b, cs);
    lemma_boundary_before(b, ce);
    lemma_boundary_monotone(b, cs, ce);
    assert(after.subrange(0, start) =~= b.subrange(0, start));
    assert(after.subrange(start, start + replacement.len()) =~= replacement);
    assert(after.subrange(start + replacement.len(), after.len() as int) =~= b.subrange(
        end,
        b.len() as int,
    ));
}

/// Replacing a range by what stands in it changes nothing.
pub proof fn replacing_text_by_itself_changes_nothing(b: Seq<u8>, range: Range<usize>)
    requires
        vstd::utf8::valid_utf8(b),
        b.len() <= usize::MAX,
    ensures
        edited(b, range, b.subrange(edit_start(b, range), edit_end(b, range))) == b,
{
    let own = b.subrange(edit_start(b, range), edit_end(b, range));
    edits_are_local(b, range, own);
    assert(edited(b, range, own) =~= b);
}

/// Replacing the whole text is editing all of it: what was there is gone.
pub proof fn replacing_is_editing_the_whole_text(
    b: Seq<u8>,
    range: Range<usize>,
    replacement: Seq<u8>,
)
    requires
        vstd::utf8::valid_utf8(b),
        range.start == 0,
        b.len() <= range.end,
    ensures
        edited(b, range, replacement) == replacement,
{
    is_char_boundary_start_end_of_seq(b);
    assert(edited(b, range, replacement) =~= replacement);
}

/// An edit between two characters replaces exactly what is between them.
pub proof fn an_edit_replaces_exactly_its_range(
    b: Seq<u8>,
    range: Range<usize>,
    replacement: Seq<u8>,
)
    requires
        vstd::utf8::valid_utf8(b),
        range.start <= range.end <= b.len(),
        is_char_boundary(b, range.start as int),
        is_char_boundary(b, range.end as int),
    ensures
        edited(b, range, replacement) == b.subrange(0, range.start as int) + replacement
            + b.subrange(range.end as int, b.len() as int),
{
    is_char_boundary_start_end_of_seq(b);
}

/// An edit inside a character begins, and ends, with that character; one past the end of the
/// text is at its end.
pub proof fn an_edit_keeps_characters_whole(b: Seq<u8>, i: int, j: int)
    requires
        vstd::utf8::valid_utf8(b),
        0 <= i <= j <= b.len(),
        is_char_boundary(b, i),
        forall|k: int| i < k <= j ==> !#[trigger] is_char_boundary(b, k),
    ensures
        boundary_before(b, j) == i,
    decreases j - i,
{
    if i < j {
        assert(!is_char_boundary(b, j));
        an_edit_keeps_characters_whole(b, i, j - 1);
    }
}

} // verus!
