use vstd::prelude::*;

use crate::cdl::LF;

verus! {

/// The carriage-return byte, which ends a source excerpt as a line feed does.
pub const CR: u8 = 0x0D;

/// The number of line feeds in `s`.
pub open spec fn count_lf(s: Seq<u8>) -> int
    decreases s.len(),
{
    if s.len() == 0 {
        0
    } else {
        count_lf(s.drop_last()) + if s.last() == LF { 1int } else { 0int }
    }
}

/// The start of the line that holds byte `off`: just after the last line feed
/// before `off`, or zero.
pub open spec fn line_start(s: Seq<u8>, off: int) -> int
    decreases off,
{
    if off <= 0 {
        0
    } else if s[off - 1] == LF {
        off
    } else {
        line_start(s, off - 1)
    }
}

/// The end of the excerpt that runs through byte `i`: the first carriage return
/// or line feed at or after `i`, or the length of `s`.
pub open spec fn excerpt_end(s: Seq<u8>, i: int) -> int
    decreases s.len() - i,
{
    if 0 <= i < s.len() && s[i] != CR && s[i] != LF {
        excerpt_end(s, i + 1)
    } else {
        i
    }
}

/// The one-based line of byte `off`.
pub open spec fn line_of(s: Seq<u8>, off: int) -> int {
    1 + count_lf(s.take(off))
}

/// The one-based column of byte `off`, counted in bytes.
pub open spec fn column_of(s: Seq<u8>, off: int) -> int {
    off - line_start(s, off) + 1
}

/// Where a byte offset stands in a source buffer, with what a diagnostic shows
/// of it: the line, as far as the first line break at or after the offset,
/// and the span under which a caret marker goes.
#[derive(Debug)]
pub struct SourcePosition {
    /// One-based line number.
    pub line: usize,
    /// One-based column, in bytes from the start of the line.
    pub column: usize,
    /// The bytes of the line.
    pub excerpt: Vec<u8>,
    /// Where the caret marker starts within the excerpt.
    pub caret_offset: usize,
    /// How many carets the marker has.
    pub caret_width: usize,
}

/// Locates byte `offset` of `buf`. An offset at or past the end gives `None`:
/// there is then no excerpt to show.
pub fn resolve_position(buf: &[u8], offset: usize) -> (r: Option<SourcePosition>)
    ensures
        offset >= buf@.len() <==> r is None,
        match r {
            Some(p) => {
                let ls = line_start(buf@, offset as int);
                let ee = excerpt_end(buf@, offset as int);
                &&& p.line == line_of(buf@, offset as int)
                &&& p.column == column_of(buf@, offset as int)
                &&& p.excerpt@ == buf@.subrange(ls, ee)
                &&& p.caret_offset == offset - ls
                &&& p.caret_width == (if offset + 1 <= ee { offset + 1 } else { ee }) - offset
            },
            None => true,
        },
{
    if offset >= buf.len() {
        return None;
    }
    let mut j: usize = 0;
    let mut line: usize = 1;
    let mut start: usize = 0;
    assert(buf@.take(0) =~= Seq::<u8>::empty());
    while j < offset
        invariant
            offset < buf@.len(),
            j <= offset,
            start <= j,
            line <= j + 1,
            line == 1 + count_lf(buf@.take(j as int)),
            start == line_start(buf@, j as int),
        decreases offset - j,
    {
        assert(buf@.take(j + 1).drop_last() =~= buf@.take(j as int));
        if buf[j] == LF {
            line = line + 1;
            start = j + 1;
        }
        j = j + 1;
    }
    let mut end = offset;
    while end < buf.len() && buf[end] != CR && buf[end] != LF
        invariant
            offset <= end <= buf@.len(),
            excerpt_end(buf@, offset as int) == excerpt_end(buf@, end as int),
        decreases buf.len() - end,
    {
        end = end + 1;
    }
    let mut excerpt: Vec<u8> = Vec::new();
    let mut k = start;
    while k < end
        invariant
            start <= k <= end,
            end <= buf@.len(),
            excerpt@ == buf@.subrange(start as int, k as int),
        decreases end - k,
    {
        excerpt.push(buf[k]);
        k = k + 1;
        assert(excerpt@ =~= buf@.subrange(start as int, k as int));
    }
    let stop = if offset + 1 <= end { offset + 1 } else { end };
    Some(
        SourcePosition {
            line,
            column: offset - start + 1,
            excerpt,
            caret_offset: offset - start,
            caret_width: stop - offset,
        },
    )
}

/// The marker line under an excerpt: spaces up to the caret offset, then the
/// carets.
pub open spec fn marker_of(caret_offset: int, caret_width: int) -> Seq<u8> {
    Seq::new(caret_offset as nat, |k: int| 0x20u8) + Seq::new(caret_width as nat, |k: int| 0x5Eu8)
}

/// The caret marker of a position, as bytes.
pub fn caret_marker(p: &SourcePosition) -> (r: Vec<u8>)
    requires
        p.caret_offset + p.caret_width < usize::MAX,
    ensures
        r@ == marker_of(p.caret_offset as int, p.caret_width as int),
{
    let mut r: Vec<u8> = Vec::new();
    let mut k: usize = 0;
    while k < p.caret_offset
        invariant
            k <= p.caret_offset,
            r@ == Seq::new(k as nat, |i: int| 0x20u8),
        decreases p.caret_offset - k,
    {
        r.push(0x20);
        k = k + 1;
        assert(r@ =~= Seq::new(k as nat, |i: int| 0x20u8));
    }
    let mut w: usize = 0;
    while w < p.caret_width
        invariant
            w <= p.caret_width,
            r@ == Seq::new(p.caret_offset as nat, |i: int| 0x20u8) + Seq::new(w as nat, |i: int| 0x5Eu8),
        decreases p.caret_width - w,
    {
        r.push(0x5E);
        w = w + 1;
        assert(r@ =~= Seq::new(p.caret_offset as nat, |i: int| 0x20u8) + Seq::new(w as nat, |i: int| 0x5Eu8));
    }
    r
}

proof fn lemma_line_start_within(s: Seq<u8>, start: int, off: int)
    requires
        0 <= start <= off <= s.len(),
        start == 0 || s[start - 1] == LF,
        forall|k: int| start <= k < off ==> s[k] != LF,
    ensures
        line_start(s, off) == start,
    decreases off,
{
    if off > start {
        lemma_line_start_within(s, start, off - 1);
    } else if off > 0 {
        assert(s[off - 1] == LF);
    }
}

proof fn lemma_count_lf_within(s: Seq<u8>, start: int, off: int)
    requires
        0 <= start <= off <= s.len(),
        forall|k: int| start <= k < off ==> s[k] != LF,
    ensures
        count_lf(s.take(off)) == count_lf(s.take(start)),
    decreases off,
{
    if off > start {
        assert(s.take(off).drop_last() =~= s.take(off - 1));
        lemma_count_lf_within(s, start, off - 1);
    }
}

/// Position resolution round-trips: a byte that stands `off - start` bytes
/// into a line that starts at `start` and follows `line - 1` line feeds is
/// reported at that line, in column `off - start + 1`.
pub proof fn lemma_position_round_trip(s: Seq<u8>, start: int, off: int, line: int)
    requires
        0 <= start <= off < s.len(),
        start == 0 || s[start - 1] == LF,
        forall|k: int| start <= k < off ==> s[k] != LF,
        line == 1 + count_lf(s.take(start)),
    ensures
        line_of(s, off) == line,
        column_of(s, off) == off - start + 1,
{
    lemma_line_start_within(s, start, off);
    lemma_count_lf_within(s, start, off);
}

} // verus!
