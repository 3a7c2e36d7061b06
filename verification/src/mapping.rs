//! Resolves a character-indexed suggestion, scoped to one extracted text
//! segment, to the byte range(s) of the original source it came from. A
//! segment is described by an ordered list of spans: runs of characters that
//! either came verbatim from a contiguous run of source characters or were
//! synthesized with no source location. A suggestion may therefore map to
//! zero, one, or several disjoint byte ranges.

use vstd::prelude::*;
use vstd::string::StrSliceExecFns;
use vstd::utf8::encode_utf8;

use crate::cursor::byte_offset_of;
use crate::cursor::lemma_byte_offset_is_char_boundary;
use crate::cursor::lemma_byte_offset_monotonic;
use crate::cursor::lemma_byte_offset_total;
use crate::cursor::lemma_seek_reaches;
use crate::cursor::StringCursor;
use crate::suggestion::SourceRange;
use crate::suggestion::Suggestion;

verus! {

/// One run of characters of an extracted text segment: `char_count`
/// characters that start at source character index `source_char_start`, or
/// synthesized text without a source location (`None`).
#[derive(Debug, Clone, Copy)]
pub struct MappedSpan {
    pub char_count: usize,
    pub source_char_start: Option<usize>,
}

/// Total number of extracted characters the spans describe.
pub open spec fn total_chars(spans: Seq<MappedSpan>) -> nat
    decreases spans.len(),
{
    if spans.len() == 0 {
        0
    } else {
        total_chars(spans.drop_last()) + spans.last().char_count as nat
    }
}

/// Every span with a source location lies entirely within the source text.
pub open spec fn spans_valid(spans: Seq<MappedSpan>, src: Seq<char>) -> bool {
    forall|k: int|
        0 <= k < spans.len() ==> ((#[trigger] spans[k]).source_char_start is Some
            ==> spans[k].source_char_start->0 + spans[k].char_count <= src.len())
}

/// The ordered byte ranges of `src` that the extracted character range
/// `[start, end)` corresponds to, walking the spans with `pos` as the
/// extracted character index where the remaining spans begin. Synthesized
/// spans and spans the range misses contribute nothing.
pub open spec fn span_ranges(
    spans: Seq<MappedSpan>,
    pos: int,
    start: int,
    end: int,
    src: Seq<char>,
) -> Seq<SourceRange>
    decreases spans.len(),
{
    if spans.len() == 0 {
        Seq::empty()
    } else {
        let sp = spans[0];
        let lo = if start > pos {
            start
        } else {
            pos
        };
        let hi = if end < pos + sp.char_count {
            end
        } else {
            pos + sp.char_count
        };
        let rest = span_ranges(spans.drop_first(), pos + sp.char_count, start, end, src);
        if lo < hi && sp.source_char_start is Some {
            let s0 = sp.source_char_start->0;
            seq![
                SourceRange {
                    start: byte_offset_of(src, s0 + lo - pos) as usize,
                    end: byte_offset_of(src, s0 + hi - pos) as usize,
                },
            ] + rest
        } else {
            rest
        }
    }
}

proof fn lemma_total_chars_take_le(spans: Seq<MappedSpan>, j: int)
    requires
        0 <= j <= spans.len(),
    ensures
        total_chars(spans.take(j)) <= total_chars(spans),
    decreases spans.len() - j,
{
    if j < spans.len() {
        lemma_total_chars_take_le(spans, j + 1);
        assert(spans.take(j + 1).drop_last() =~= spans.take(j));
        assert(spans.take(j + 1).last() == spans[j]);
    } else {
        assert(spans.take(j) =~= spans);
    }
}

/// Every range the resolution yields lies within the source and begins and
/// ends on character boundaries of its UTF-8 encoding: a resolved location
/// never points outside the source or into the middle of an encoded
/// character.
pub proof fn lemma_span_ranges_valid(
    spans: Seq<MappedSpan>,
    pos: int,
    start: int,
    end: int,
    src: Seq<char>,
)
    requires
        spans_valid(spans, src),
        0 <= pos,
        encode_utf8(src).len() <= usize::MAX,
    ensures
        ({
            let rs = span_ranges(spans, pos, start, end, src);
            forall|k: int|
                0 <= k < rs.len() ==> {
                    let r = #[trigger] rs[k];
                    &&& r.start <= r.end
                    &&& r.end <= encode_utf8(src).len()
                    &&& vstd::utf8::is_char_boundary(encode_utf8(src), r.start as int)
                    &&& vstd::utf8::is_char_boundary(encode_utf8(src), r.end as int)
                }
        }),
    decreases spans.len(),
{
    if spans.len() > 0 {
        let sp = spans[0];
        assert(spans.drop_first().len() == spans.len() - 1);
        assert forall|k: int| 0 <= k < spans.drop_first().len() implies (
        #[trigger] spans.drop_first()[k]).source_char_start is Some
            ==> spans.drop_first()[k].source_char_start->0 + spans.drop_first()[k].char_count
            <= src.len() by {
            assert(spans.drop_first()[k] == spans[k + 1]);
        }
        lemma_span_ranges_valid(spans.drop_first(), pos + sp.char_count, start, end, src);
        let lo = if start > pos {
            start
        } else {
            pos
        };
        let hi = if end < pos + sp.char_count {
            end
        } else {
            pos + sp.char_count
        };
        let rest = span_ranges(spans.drop_first(), pos + sp.char_count, start, end, src);
        let rs = span_ranges(spans, pos, start, end, src);
        if lo < hi && sp.source_char_start is Some {
            let s0 = sp.source_char_start->0;
            let a = s0 + lo - pos;
            let b = s0 + hi - pos;
            lemma_byte_offset_monotonic(src, a, b);
            lemma_byte_offset_monotonic(src, b, src.len() as int);
            lemma_byte_offset_total(src);
            lemma_byte_offset_is_char_boundary(src, a);
            lemma_byte_offset_is_char_boundary(src, b);
            assert forall|k: int| 0 <= k < rs.len() implies {
                let r = #[trigger] rs[k];
                &&& r.start <= r.end
                &&& r.end <= encode_utf8(src).len()
                &&& vstd::utf8::is_char_boundary(encode_utf8(src), r.start as int)
                &&& vstd::utf8::is_char_boundary(encode_utf8(src), r.end as int)
            } by {
                if k > 0 {
                    assert(rs[k] == rest[k - 1]);
                }
            }
        } else {
            assert(rs =~= rest);
        }
    }
}

/// Describes how one extracted text segment was assembled from the source.
pub struct Mapping {
    pub spans: Vec<MappedSpan>,
}

impl Mapping {
    /// The mapping is consistent with a source of the given characters and
    /// small enough that extracted character positions fit the machine.
    pub open spec fn valid_for(&self, src: Seq<char>) -> bool {
        &&& spans_valid(self.spans@, src)
        &&& total_chars(self.spans@) <= usize::MAX
    }

    pub fn new() -> (r: Self)
        ensures
            r.spans@.len() == 0,
    {
        Mapping { spans: Vec::new() }
    }

    /// Appends a run of `char_count` extracted characters that start at
    /// source character index `source_char_start`.
    pub fn push_span(&mut self, char_count: usize, source_char_start: usize)
        ensures
            final(self).spans@ == old(self).spans@.push(
                MappedSpan { char_count, source_char_start: Some(source_char_start) },
            ),
    {
        self.spans.push(MappedSpan { char_count, source_char_start: Some(source_char_start) });
    }

    /// Appends a run of `char_count` synthesized extracted characters that
    /// have no source location.
    pub fn push_synthetic(&mut self, char_count: usize)
        ensures
            final(self).spans@ == old(self).spans@.push(
                MappedSpan { char_count, source_char_start: None },
            ),
    {
        self.spans.push(MappedSpan { char_count, source_char_start: None });
    }

    /// Decides whether this mapping is consistent with `source`, so a caller
    /// can resolve suggestions against it.
    #[verifier::loop_isolation(false)]
    pub fn is_valid_for(&self, source: &str) -> (b: bool)
        ensures
            b == self.valid_for(source@),
    {
        let ghost src = source@;
        let n = source.unicode_len();
        let mut total: usize = 0;
        let mut i: usize = 0;
        while i < self.spans.len()
            invariant
                i <= self.spans@.len(),
                total as nat == total_chars(self.spans@.take(i as int)),
                forall|k: int|
                    0 <= k < i ==> ((#[trigger] self.spans@[k]).source_char_start is Some
                        ==> self.spans@[k].source_char_start->0 + self.spans@[k].char_count
                        <= src.len()),
            decreases self.spans@.len() - i,
        {
            let sp = self.spans[i];
            match sp.source_char_start {
                Some(s0) => {
                    if !(s0 <= n && sp.char_count <= n - s0) {
                        return false;
                    }
                },
                None => {},
            }
            total = match total.checked_add(sp.char_count) {
                Some(t2) => t2,
                None => {
                    proof {
                        assert(self.spans@.take(i as int + 1).drop_last() =~= self.spans@.take(
                            i as int,
                        ));
                        assert(self.spans@.take(i as int + 1).last() == self.spans@[i as int]);
                        lemma_total_chars_take_le(self.spans@, i as int + 1);
                    }
                    return false;
                },
            };
            proof {
                assert(self.spans@.take(i as int + 1).drop_last() =~= self.spans@.take(i as int));
                assert(self.spans@.take(i as int + 1).last() == self.spans@[i as int]);
            }
            i = i + 1;
        }
        proof {
            assert(self.spans@.take(i as int) =~= self.spans@);
        }
        true
    }

    /// Resolves `suggestion`'s character range to the ordered byte ranges of
    /// `source` it corresponds to: several when the segment was assembled
    /// from non-contiguous source runs, none when the range falls entirely
    /// within synthesized text.
    #[verifier::loop_isolation(false)]
    pub fn location(&self, suggestion: &Suggestion, source: &str) -> (r: Vec<SourceRange>)
        requires
            self.valid_for(source@),
        ensures
            r@ == span_ranges(
                self.spans@,
                0,
                suggestion.start as int,
                suggestion.end as int,
                source@,
            ),
    {
        let ghost src = source@;
        let ghost start = suggestion.start as int;
        let ghost end = suggestion.end as int;
        let ghost all = span_ranges(self.spans@, 0, start, end, src);
        let mut out: Vec<SourceRange> = Vec::new();
        let mut cursor = StringCursor::new(source);
        let mut pos: usize = 0;
        let mut i: usize = 0;
        proof {
            assert(self.spans@.skip(0) =~= self.spans@);
            crate::cursor::lemma_byte_offset_at_least_index(src, src.len() as int);
            lemma_byte_offset_total(src);
        }
        while i < self.spans.len()
            invariant
                i <= self.spans@.len(),
                pos as nat == total_chars(self.spans@.take(i as int)),
                out@ + span_ranges(self.spans@.skip(i as int), pos as int, start, end, src) =~= all,
                cursor.wf(),
                cursor.text == source,
                src.len() <= usize::MAX,
            decreases self.spans@.len() - i,
        {
            let ghost tail = self.spans@.skip(i as int);
            proof {
                assert(tail[0] == self.spans@[i as int]);
                assert(tail.drop_first() =~= self.spans@.skip(i as int + 1));
                assert(self.spans@.take(i as int + 1).drop_last() =~= self.spans@.take(i as int));
                assert(self.spans@.take(i as int + 1).last() == self.spans@[i as int]);
                lemma_total_chars_take_le(self.spans@, i as int + 1);
            }
            let sp = self.spans[i];
            let lo = if suggestion.start > pos {
                suggestion.start
            } else {
                pos
            };
            let span_end = pos + sp.char_count;
            let hi = if suggestion.end < span_end {
                suggestion.end
            } else {
                span_end
            };
            match sp.source_char_start {
                Some(s0) => {
                    if lo < hi {
                        let a = s0 + (lo - pos);
                        let b = s0 + (hi - pos);
                        proof {
                            lemma_seek_reaches(src, cursor.char_index as int, a as int);
                        }
                        let off_a = cursor.utf_8_offset(a, false).unwrap();
                        proof {
                            lemma_seek_reaches(src, cursor.char_index as int, b as int);
                        }
                        let off_b = cursor.utf_8_offset(b, false).unwrap();
                        proof {
                            lemma_byte_offset_monotonic(src, a as int, src.len() as int);
                            lemma_byte_offset_monotonic(src, b as int, src.len() as int);
                            lemma_byte_offset_total(src);
                        }
                        out.push(SourceRange { start: off_a, end: off_b });
                    }
                },
                None => {},
            }
            pos = span_end;
            i = i + 1;
        }
        proof {
            assert(self.spans@.skip(i as int) =~= Seq::<MappedSpan>::empty());
        }
        out
    }
}

} // verus!
