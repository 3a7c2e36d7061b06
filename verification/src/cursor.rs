//! Stateful scanner converting between a character index and a UTF-8 byte
//! offset within one string, supporting forward and backward movement and an
//! early-stop mode at line boundaries.

use vstd::prelude::*;
use vstd::string::StrSliceExecFns;
use vstd::utf8::char_is_scalar;
use vstd::utf8::encode_scalar;
use vstd::utf8::encode_utf8;

verus! {

/// Number of bytes the UTF-8 encoding of `c` occupies.
pub open spec fn char_len(c: char) -> nat {
    encode_scalar(c as u32).len()
}

/// Byte offset at which the `i`-th character of `s` starts in the UTF-8
/// encoding of `s` (the total encoded length when `i == s.len()`).
pub open spec fn byte_offset_of(s: Seq<char>, i: int) -> nat
    decreases i,
{
    if i <= 0 {
        0
    } else {
        byte_offset_of(s, i - 1) + char_len(s[i - 1])
    }
}

/// Every character encodes to between one and four bytes.
pub proof fn lemma_char_len_bounds(c: char)
    ensures
        1 <= char_len(c) <= 4,
{
    char_is_scalar(c);
}

/// Byte offsets never decrease as the character index grows.
pub proof fn lemma_byte_offset_monotonic(s: Seq<char>, i: int, j: int)
    requires
        0 <= i <= j,
    ensures
        byte_offset_of(s, i) <= byte_offset_of(s, j),
    decreases j - i,
{
    if i < j {
        lemma_byte_offset_monotonic(s, i, j - 1);
    }
}

/// Byte offsets strictly increase with the character index.
pub proof fn lemma_byte_offset_strictly_increasing(s: Seq<char>, i: int, j: int)
    requires
        0 <= i < j,
    ensures
        byte_offset_of(s, i) < byte_offset_of(s, j),
{
    lemma_byte_offset_monotonic(s, i, j - 1);
    lemma_char_len_bounds(s[j - 1]);
}

/// Distinct character indices have distinct byte offsets.
pub proof fn lemma_byte_offset_injective(s: Seq<char>, i: int, j: int)
    requires
        0 <= i,
        0 <= j,
        byte_offset_of(s, i) == byte_offset_of(s, j),
    ensures
        i == j,
{
    if i < j {
        lemma_byte_offset_strictly_increasing(s, i, j);
    } else if j < i {
        lemma_byte_offset_strictly_increasing(s, j, i);
    }
}

/// A character index never exceeds its own byte offset: every character
/// occupies at least one byte.
pub proof fn lemma_byte_offset_at_least_index(s: Seq<char>, i: int)
    requires
        0 <= i,
    ensures
        i <= byte_offset_of(s, i),
    decreases i,
{
    if i > 0 {
        lemma_byte_offset_at_least_index(s, i - 1);
        lemma_char_len_bounds(s[i - 1]);
    }
}

proof fn lemma_byte_offset_drop_first(s: Seq<char>, i: int)
    requires
        1 <= i <= s.len(),
    ensures
        byte_offset_of(s, i) == char_len(s[0]) + byte_offset_of(s.drop_first(), i - 1),
    decreases i,
{
    if i > 1 {
        lemma_byte_offset_drop_first(s, i - 1);
        assert(s.drop_first()[i - 2] == s[i - 1]);
    } else {
        assert(byte_offset_of(s, 0) == 0);
        assert(byte_offset_of(s.drop_first(), 0) == 0);
    }
}

/// The byte offset past the last character is the length of the whole
/// UTF-8 encoding of `s`.
pub proof fn lemma_byte_offset_total(s: Seq<char>)
    ensures
        byte_offset_of(s, s.len() as int) == encode_utf8(s).len(),
    decreases s.len(),
{
    if s.len() > 0 {
        lemma_byte_offset_drop_first(s, s.len() as int);
        lemma_byte_offset_total(s.drop_first());
    }
}

/// For text of single-byte characters only, the character index and the byte
/// offset coincide.
pub proof fn lemma_ascii_byte_offsets(s: Seq<char>, i: int)
    requires
        vstd::utf8::is_ascii_chars(s),
        0 <= i <= s.len(),
    ensures
        byte_offset_of(s, i) == i,
    decreases i,
{
    if i > 0 {
        lemma_ascii_byte_offsets(s, i - 1);
        assert(s[i - 1] <= '\u{7f}');
        char_is_scalar(s[i - 1]);
        assert(vstd::utf8::has_width_1_encoding(s[i - 1] as u32));
    }
}

/// The byte offset of every reachable character index falls on a character
/// boundary of the UTF-8 encoding: no offset points into the middle of an
/// encoded character.
pub proof fn lemma_byte_offset_is_char_boundary(s: Seq<char>, i: int)
    requires
        0 <= i <= s.len(),
    ensures
        vstd::utf8::is_char_boundary(encode_utf8(s), byte_offset_of(s, i) as int),
    decreases i,
{
    broadcast use vstd::utf8::encode_utf8_valid_utf8;

    if i > 0 {
        vstd::utf8::encode_utf8_first_scalar(s);
        let bytes = encode_utf8(s);
        assert(vstd::utf8::pop_first_scalar(bytes) =~= encode_utf8(s.drop_first()));
        lemma_byte_offset_drop_first(s, i);
        lemma_byte_offset_is_char_boundary(s.drop_first(), i - 1);
        lemma_byte_offset_total(s);
        lemma_byte_offset_monotonic(s, i, s.len() as int);
    }
}

/// Resolving a reachable character index to its byte offset and resolving
/// that offset back to a character index returns the original index: the two
/// directions are inverse to each other.
pub proof fn lemma_byte_offset_roundtrip(s: Seq<char>, i: int)
    requires
        0 <= i <= s.len(),
    ensures
        is_byte_boundary(s, byte_offset_of(s, i) as int),
        char_index_at(s, byte_offset_of(s, i) as int) == i,
{
    let off = byte_offset_of(s, i) as int;
    assert(is_byte_boundary(s, off));
    let j = char_index_at(s, off);
    lemma_byte_offset_injective(s, i, j);
}

/// Characters at which a `stop_at_newline` scan halts.
pub open spec fn is_line_break(c: char) -> bool {
    c == '\n' || c == '\r'
}

/// Character index at which a forward scan from `from` toward `target` ends:
/// at `target`, at the end of the text, or (with `stop` set) at the first line
/// break encountered.
pub open spec fn forward_dest(s: Seq<char>, from: int, target: int, stop: bool) -> int
    recommends
        0 <= from <= s.len(),
    decreases target - from,
{
    if from >= target || from >= s.len() {
        from
    } else if stop && is_line_break(s[from]) {
        from
    } else {
        forward_dest(s, from + 1, target, stop)
    }
}

/// Character index at which a backward scan from `from` toward `target` ends:
/// at `target`, or (with `stop` set) just after the last line break above
/// `target`.
pub open spec fn backward_dest(s: Seq<char>, from: int, target: int, stop: bool) -> int
    recommends
        0 <= target <= from <= s.len(),
    decreases from - target,
{
    if from <= target {
        from
    } else if stop && is_line_break(s[from - 1]) {
        from
    } else {
        backward_dest(s, from - 1, target, stop)
    }
}

/// Character index the cursor caches after seeking `target` from `from`.
pub open spec fn seek_dest(s: Seq<char>, from: int, target: int, stop: bool) -> int {
    if target >= from {
        forward_dest(s, from, target, stop)
    } else {
        backward_dest(s, from, target, stop)
    }
}

/// Whether a seek reports a byte offset: it does unless a forward scan runs
/// off the end of the text before reaching `target`.
pub open spec fn seek_found(s: Seq<char>, from: int, target: int, stop: bool) -> bool {
    let d = seek_dest(s, from, target, stop);
    d == target || (target > from && d < s.len()) || (target < from && d > target)
}

pub proof fn lemma_forward_dest_range(s: Seq<char>, from: int, target: int, stop: bool)
    requires
        0 <= from <= s.len(),
        from <= target,
    ensures
        from <= forward_dest(s, from, target, stop),
        forward_dest(s, from, target, stop) <= s.len(),
        forward_dest(s, from, target, stop) <= target,
    decreases target - from,
{
    if from < target && from < s.len() && !(stop && is_line_break(s[from])) {
        lemma_forward_dest_range(s, from + 1, target, stop);
    }
}

pub proof fn lemma_backward_dest_range(s: Seq<char>, from: int, target: int, stop: bool)
    requires
        0 <= target <= from,
    ensures
        target <= backward_dest(s, from, target, stop),
        backward_dest(s, from, target, stop) <= from,
    decreases from - target,
{
    if from > target && !(stop && is_line_break(s[from - 1])) {
        lemma_backward_dest_range(s, from - 1, target, stop);
    }
}

/// Without the newline stop, a seek reaches every character index that lies
/// within the text, wherever it starts: resolving a reachable index always
/// yields its byte offset.
pub proof fn lemma_seek_reaches(s: Seq<char>, from: int, target: int)
    requires
        0 <= from <= s.len(),
        0 <= target <= s.len(),
    ensures
        seek_dest(s, from, target, false) == target,
        seek_found(s, from, target, false),
    decreases if target >= from { target - from } else { from - target },
{
    if target > from {
        lemma_seek_reaches(s, from + 1, target);
        assert(forward_dest(s, from, target, false) == forward_dest(s, from + 1, target, false));
    } else if target < from {
        lemma_seek_reaches(s, from - 1, target);
        assert(backward_dest(s, from, target, false) == backward_dest(s, from - 1, target, false));
    }
}

/// Seeking the same target again from where a seek ended changes nothing and
/// reports the same outcome.
pub proof fn lemma_seek_idempotent(s: Seq<char>, from: int, target: int, stop: bool)
    requires
        0 <= from <= s.len(),
        0 <= target,
    ensures
        seek_dest(s, seek_dest(s, from, target, stop), target, stop) == seek_dest(
            s,
            from,
            target,
            stop,
        ),
        seek_found(s, seek_dest(s, from, target, stop), target, stop) == seek_found(
            s,
            from,
            target,
            stop,
        ),
{
    let d = seek_dest(s, from, target, stop);
    if target > from {
        lemma_forward_dest_range(s, from, target, stop);
        lemma_forward_dest_fixpoint(s, from, target, stop);
    } else if target < from {
        lemma_backward_dest_range(s, from, target, stop);
        lemma_backward_dest_fixpoint(s, from, target, stop);
    }
}

proof fn lemma_forward_dest_fixpoint(s: Seq<char>, from: int, target: int, stop: bool)
    requires
        0 <= from <= s.len(),
        from <= target,
    ensures
        ({
            let d = forward_dest(s, from, target, stop);
            d == target || d == s.len() || (stop && is_line_break(s[d]))
        }),
    decreases target - from,
{
    if from < target && from < s.len() && !(stop && is_line_break(s[from])) {
        lemma_forward_dest_fixpoint(s, from + 1, target, stop);
    }
}

proof fn lemma_backward_dest_fixpoint(s: Seq<char>, from: int, target: int, stop: bool)
    requires
        0 <= target <= from,
    ensures
        ({
            let d = backward_dest(s, from, target, stop);
            d == target || (stop && d > target && is_line_break(s[d - 1]))
        }),
    decreases from - target,
{
    if from > target && !(stop && is_line_break(s[from - 1])) {
        lemma_backward_dest_fixpoint(s, from - 1, target, stop);
    }
}

/// A forward scan with the newline stop halts exactly at the first line break
/// in its path: no line break is crossed, and the scan ends at the target, at
/// the end of the text, or on a line break.
pub proof fn lemma_forward_stop_at_line_break(s: Seq<char>, from: int, target: int)
    requires
        0 <= from <= s.len(),
        from <= target,
    ensures
        ({
            let d = forward_dest(s, from, target, true);
            &&& from <= d <= s.len()
            &&& d <= target
            &&& forall|k: int| from <= k < d ==> !is_line_break(#[trigger] s[k])
            &&& d == target || d == s.len() || is_line_break(s[d])
        }),
    decreases target - from,
{
    if from < target && from < s.len() && !is_line_break(s[from]) {
        lemma_forward_stop_at_line_break(s, from + 1, target);
    }
}

/// A backward scan with the newline stop halts just after the line break
/// nearest the start: no line break is crossed, and the scan ends at the
/// target or right after a line break.
pub proof fn lemma_backward_stop_at_line_break(s: Seq<char>, from: int, target: int)
    requires
        0 <= target <= from,
    ensures
        ({
            let d = backward_dest(s, from, target, true);
            &&& target <= d <= from
            &&& forall|k: int| d <= k < from ==> !is_line_break(#[trigger] s[k])
            &&& d == target || is_line_break(s[d - 1])
        }),
    decreases from - target,
{
    if from > target && !is_line_break(s[from - 1]) {
        lemma_backward_stop_at_line_break(s, from - 1, target);
    }
}

/// Converts between a character index and a UTF-8 byte offset within one
/// string, caching the last resolved pair so that nearby lookups re-scan only
/// the distance travelled.
pub struct StringCursor<'a> {
    pub text: &'a str,
    pub utf_8_index: usize,
    pub char_index: usize,
}

impl<'a> StringCursor<'a> {
    /// The cached pair denotes a character boundary of `text`: the byte index
    /// is exactly the encoded length of the characters before it.
    pub open spec fn wf(&self) -> bool {
        &&& self.char_index <= self.text@.len()
        &&& self.utf_8_index as nat == byte_offset_of(self.text@, self.char_index as int)
        &&& encode_utf8(self.text@).len() <= usize::MAX
    }

    pub fn new(text: &'a str) -> (r: Self)
        ensures
            r.wf(),
            r.text == text,
            r.char_index == 0,
            r.utf_8_index == 0,
    {
        // a real string's encoding is in memory, so its byte length, and
        // with it every byte offset, fits a usize
        let bytes: &[u8] = text.as_bytes();
        let n: usize = bytes.len();
        proof {
            assert(n as nat == encode_utf8(text@).len());
        }
        Self { text, utf_8_index: 0, char_index: 0 }
    }

    /// Resolves `char_index` to the byte offset where that character starts.
    ///
    /// Scans forward or backward from the cached position. With
    /// `stop_at_newline` set, the scan halts before consuming a `'\n'` or
    /// `'\r'` and reports the byte offset reached so far. Reports no offset
    /// when the text ends before the requested index is reached; the cache is
    /// left at the end of the traversal either way.
    #[verifier::loop_isolation(false)]
    pub fn utf_8_offset(&mut self, char_index: usize, stop_at_newline: bool) -> (r: Option<usize>)
        requires
            old(self).wf(),
        ensures
            final(self).wf(),
            final(self).text == old(self).text,
            final(self).char_index as int == seek_dest(
                old(self).text@,
                old(self).char_index as int,
                char_index as int,
                stop_at_newline,
            ),
            r == (if seek_found(
                old(self).text@,
                old(self).char_index as int,
                char_index as int,
                stop_at_newline,
            ) {
                Some(final(self).utf_8_index)
            } else {
                None::<usize>
            }),
    {
        let ghost s = self.text@;
        let ghost ci0 = self.char_index as int;
        let ghost t = char_index as int;
        if self.char_index < char_index {
            let total_chars: usize = self.text.unicode_len();
            while self.char_index < char_index && self.char_index < total_chars
                invariant
                    self.wf(),
                    self.text == old(self).text,
                    ci0 <= self.char_index as int <= t,
                    forward_dest(s, self.char_index as int, t, stop_at_newline) == forward_dest(
                        s,
                        ci0,
                        t,
                        stop_at_newline,
                    ),
                decreases t - self.char_index as int,
            {
                let c = self.text.get_char(self.char_index);
                if stop_at_newline && (c == '\n' || c == '\r') {
                    return Some(self.utf_8_index);
                }
                let step = utf8_len_of_char(c);
                proof {
                    lemma_byte_offset_monotonic(s, self.char_index as int + 1, s.len() as int);
                    lemma_byte_offset_total(s);
                }
                self.utf_8_index = self.utf_8_index + step;
                self.char_index = self.char_index + 1;
            }
        } else if self.char_index > char_index {
            while self.char_index > char_index
                invariant
                    self.wf(),
                    self.text == old(self).text,
                    t <= self.char_index as int <= ci0,
                    backward_dest(s, self.char_index as int, t, stop_at_newline) == backward_dest(
                        s,
                        ci0,
                        t,
                        stop_at_newline,
                    ),
                decreases self.char_index,
            {
                let c = self.text.get_char(self.char_index - 1);
                if stop_at_newline && (c == '\n' || c == '\r') {
                    return Some(self.utf_8_index);
                }
                let step = utf8_len_of_char(c);
                self.utf_8_index = self.utf_8_index - step;
                self.char_index = self.char_index - 1;
            }
        }
        if self.char_index == char_index {
            Some(self.utf_8_index)
        } else {
            None
        }
    }
}

/// True when `off` is the byte offset of some character boundary of `s`
/// (including the end of the text).
pub open spec fn is_byte_boundary(s: Seq<char>, off: int) -> bool {
    exists|i: int| 0 <= i <= s.len() && byte_offset_of(s, i) == off
}

/// The character index whose byte offset is `off`; unique when it exists.
pub open spec fn char_index_at(s: Seq<char>, off: int) -> int {
    choose|i: int| 0 <= i <= s.len() && byte_offset_of(s, i) == off
}

/// Finds the character index that starts at byte offset `byte`.
#[verifier::loop_isolation(false)]
pub(crate) fn char_index_of_boundary(text: &str, byte: usize) -> (i: usize)
    requires
        encode_utf8(text@).len() <= usize::MAX,
        is_byte_boundary(text@, byte as int),
    ensures
        i <= text@.len(),
        byte_offset_of(text@, i as int) == byte,
{
    let ghost s = text@;
    let ghost j = char_index_at(s, byte as int);
    let mut i: usize = 0;
    let mut off: usize = 0;
    while off < byte
        invariant
            off as nat == byte_offset_of(s, i as int),
            off <= byte,
            i as int <= j,
        decreases byte - off,
    {
        proof {
            if i as int >= j {
                lemma_byte_offset_monotonic(s, j, i as int);
            }
        }
        let c = text.get_char(i);
        let step = utf8_len_of_char(c);
        proof {
            lemma_byte_offset_monotonic(s, i as int + 1, j);
            lemma_byte_offset_at_least_index(s, j);
        }
        off = off + step;
        i = i + 1;
    }
    i
}

/// Byte length of the UTF-8 encoding of one character.
pub fn utf8_len_of_char(c: char) -> (n: usize)
    ensures
        n as nat == char_len(c),
        1 <= n <= 4,
{
    let u: u32 = c as u32;
    proof {
        char_is_scalar(c);
    }
    if u < 0x80 {
        1
    } else if u < 0x800 {
        2
    } else if u < 0x10000 {
        3
    } else {
        4
    }
}

} // verus!
