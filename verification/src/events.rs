//! Event blocks and their payloads.
//!
//! The wire format resembles server-sent events: blocks are separated by a
//! blank line, a block carries its payload on `data:` lines, and the literal
//! payload `[DONE]` ends the stream. This module decides what one block
//! means; the splitting of the byte stream into blocks lives with the
//! aggregator.

use vstd::prelude::*;

verus! {

/// ASCII whitespace.
pub open spec fn is_space(b: u8) -> bool {
    b == 32 || (9 <= b && b <= 13)
}

/// The length of the one Unicode whitespace character encoded at the front
/// of `s`, or 0: the ASCII spaces, then the UTF-8 forms of NEL and NBSP,
/// OGHAM SPACE MARK, the EN QUAD through HAIR SPACE run, the LINE and
/// PARAGRAPH SEPARATORS, NARROW NO-BREAK SPACE, MEDIUM MATHEMATICAL SPACE
/// and IDEOGRAPHIC SPACE — the characters `str::trim` drops.
pub open spec fn ws_prefix_len(s: Seq<u8>) -> int {
    if s.len() >= 1 && is_space(s[0]) {
        1
    } else if s.len() >= 2 && s[0] == 0xC2 && (s[1] == 0x85 || s[1] == 0xA0) {
        2
    } else if s.len() >= 3 && s[0] == 0xE1 && s[1] == 0x9A && s[2] == 0x80 {
        3
    } else if s.len() >= 3 && s[0] == 0xE2 && s[1] == 0x80 && ((0x80 <= s[2] && s[2] <= 0x8A)
        || s[2] == 0xA8 || s[2] == 0xA9 || s[2] == 0xAF) {
        3
    } else if s.len() >= 3 && s[0] == 0xE2 && s[1] == 0x81 && s[2] == 0x9F {
        3
    } else if s.len() >= 3 && s[0] == 0xE3 && s[1] == 0x80 && s[2] == 0x80 {
        3
    } else {
        0
    }
}

/// The length of the one Unicode whitespace character encoded at the back
/// of `s`, or 0. On well-formed text the patterns cannot overlap a
/// character boundary: an ASCII byte never continues a longer character,
/// and the two- and three-byte patterns start with a leading byte.
pub open spec fn ws_suffix_len(s: Seq<u8>) -> int {
    let n = s.len() as int;
    if n >= 1 && is_space(s[n - 1]) {
        1
    } else if n >= 2 && s[n - 2] == 0xC2 && (s[n - 1] == 0x85 || s[n - 1] == 0xA0) {
        2
    } else if n >= 3 && s[n - 3] == 0xE1 && s[n - 2] == 0x9A && s[n - 1] == 0x80 {
        3
    } else if n >= 3 && s[n - 3] == 0xE2 && s[n - 2] == 0x80 && ((0x80 <= s[n - 1] && s[n - 1]
        <= 0x8A) || s[n - 1] == 0xA8 || s[n - 1] == 0xA9 || s[n - 1] == 0xAF) {
        3
    } else if n >= 3 && s[n - 3] == 0xE2 && s[n - 2] == 0x81 && s[n - 1] == 0x9F {
        3
    } else if n >= 3 && s[n - 3] == 0xE3 && s[n - 2] == 0x80 && s[n - 1] == 0x80 {
        3
    } else {
        0
    }
}

/// `s` without leading Unicode whitespace.
pub open spec fn trim_start(s: Seq<u8>) -> Seq<u8>
    decreases s.len(),
{
    let k = ws_prefix_len(s);
    if k > 0 {
        trim_start(s.skip(k))
    } else {
        s
    }
}

/// `s` without trailing Unicode whitespace.
pub open spec fn trim_end(s: Seq<u8>) -> Seq<u8>
    decreases s.len(),
{
    let k = ws_suffix_len(s);
    if k > 0 {
        trim_end(s.take(s.len() - k))
    } else {
        s
    }
}

/// `s` without leading and trailing Unicode whitespace, as `str::trim`
/// leaves decoded text.
pub open spec fn trim_bytes(s: Seq<u8>) -> Seq<u8> {
    trim_end(trim_start(s))
}

/// The length of the whitespace character at `s[from..]`, per
/// [`ws_prefix_len`].
fn ws_prefix_exec(s: &[u8], from: usize) -> (k: usize)
    requires
        from <= s@.len(),
    ensures
        k as int == ws_prefix_len(s@.skip(from as int)),
        from + k <= s@.len(),
{
    let ghost t = s@.skip(from as int);
    let len = s.len();
    proof {
        assert(forall|j: int| 0 <= j < t.len() ==> t[j] == s@[from + j]);
    }
    if from < len && is_space_exec(s[from]) {
        1
    } else if len - from >= 2 && s[from] == 0xC2 && (s[from + 1] == 0x85 || s[from + 1] == 0xA0) {
        2
    } else if len - from >= 3 && s[from] == 0xE1 && s[from + 1] == 0x9A && s[from + 2] == 0x80 {
        3
    } else if len - from >= 3 && s[from] == 0xE2 && s[from + 1] == 0x80 && ((0x80 <= s[from + 2]
        && s[from + 2] <= 0x8A) || s[from + 2] == 0xA8 || s[from + 2] == 0xA9 || s[from + 2]
        == 0xAF) {
        3
    } else if len - from >= 3 && s[from] == 0xE2 && s[from + 1] == 0x81 && s[from + 2] == 0x9F {
        3
    } else if len - from >= 3 && s[from] == 0xE3 && s[from + 1] == 0x80 && s[from + 2] == 0x80 {
        3
    } else {
        0
    }
}

/// The length of the whitespace character ending `s[lo..hi]`, per
/// [`ws_suffix_len`].
fn ws_suffix_exec(s: &[u8], lo: usize, hi: usize) -> (k: usize)
    requires
        lo <= hi <= s@.len(),
    ensures
        k as int == ws_suffix_len(s@.subrange(lo as int, hi as int)),
        k <= hi - lo,
{
    let ghost t = s@.subrange(lo as int, hi as int);
    proof {
        assert(forall|j: int| 0 <= j < t.len() ==> t[j] == s@[lo + j]);
    }
    if hi > lo && is_space_exec(s[hi - 1]) {
        1
    } else if hi - lo >= 2 && s[hi - 2] == 0xC2 && (s[hi - 1] == 0x85 || s[hi - 1] == 0xA0) {
        2
    } else if hi - lo >= 3 && s[hi - 3] == 0xE1 && s[hi - 2] == 0x9A && s[hi - 1] == 0x80 {
        3
    } else if hi - lo >= 3 && s[hi - 3] == 0xE2 && s[hi - 2] == 0x80 && ((0x80 <= s[hi - 1] && s[hi
        - 1] <= 0x8A) || s[hi - 1] == 0xA8 || s[hi - 1] == 0xA9 || s[hi - 1] == 0xAF) {
        3
    } else if hi - lo >= 3 && s[hi - 3] == 0xE2 && s[hi - 2] == 0x81 && s[hi - 1] == 0x9F {
        3
    } else if hi - lo >= 3 && s[hi - 3] == 0xE3 && s[hi - 2] == 0x80 && s[hi - 1] == 0x80 {
        3
    } else {
        0
    }
}

/// Decides [`is_space`].
pub fn is_space_exec(b: u8) -> (r: bool)
    ensures
        r == is_space(b),
{
    b == 32 || (9 <= b && b <= 13)
}

/// The bytes of `s` with Unicode whitespace trimmed from both ends.
pub fn trim_exec(s: &[u8]) -> (r: Vec<u8>)
    ensures
        r@ == trim_bytes(s@),
{
    let len = s.len();
    let mut lo: usize = 0;
    assert(s@.skip(0) =~= s@);
    loop
        invariant
            lo <= len,
            len == s@.len(),
            trim_start(s@) == trim_start(s@.skip(lo as int)),
        decreases len - lo,
    {
        let k = ws_prefix_exec(s, lo);
        if k == 0 {
            proof {
                assert(trim_start(s@.skip(lo as int)) == s@.skip(lo as int));
            }
            break ;
        }
        proof {
            assert(s@.skip(lo as int).skip(k as int) =~= s@.skip(lo + k));
        }
        lo = lo + k;
    }
    proof {
        assert(trim_start(s@) == s@.skip(lo as int));
    }
    let mut hi: usize = len;
    proof {
        assert(s@.skip(lo as int) =~= s@.subrange(lo as int, len as int));
    }
    loop
        invariant
            lo <= hi <= len,
            len == s@.len(),
            trim_start(s@) == s@.skip(lo as int),
            trim_end(s@.skip(lo as int)) == trim_end(s@.subrange(lo as int, hi as int)),
        decreases hi,
    {
        let k = ws_suffix_exec(s, lo, hi);
        if k == 0 {
            proof {
                assert(trim_end(s@.subrange(lo as int, hi as int)) == s@.subrange(
                    lo as int,
                    hi as int,
                ));
            }
            break ;
        }
        proof {
            let t = s@.subrange(lo as int, hi as int);
            assert(t.take(t.len() - k) =~= s@.subrange(lo as int, hi - k));
        }
        hi = hi - k;
    }
    let mut out: Vec<u8> = Vec::new();
    let mut i: usize = lo;
    while i < hi
        invariant
            lo <= i <= hi <= len,
            len == s@.len(),
            out@ =~= s@.subrange(lo as int, i as int),
        decreases hi - i,
    {
        out.push(s[i]);
        i = i + 1;
    }
    proof {
        assert(out@ =~= trim_bytes(s@));
    }
    out
}

/// The index of the first line feed in `s`, or `-1`.
pub open spec fn find_nl(s: Seq<u8>) -> int
    decreases s.len(),
{
    if s.len() == 0 {
        -1
    } else if s[0] == 10 {
        0
    } else {
        let r = find_nl(s.drop_first());
        if r < 0 {
            -1
        } else {
            r + 1
        }
    }
}

proof fn lemma_find_nl_at(s: Seq<u8>, i: int)
    requires
        0 <= i < s.len(),
        s[i] == 10,
        forall|j: int| 0 <= j < i ==> s[j] != 10,
    ensures
        find_nl(s) == i,
    decreases s.len(),
{
    if s[0] != 10 {
        assert(s.drop_first()[i - 1] == s[i]);
        assert(forall|j: int| 0 <= j < i - 1 ==> s.drop_first()[j] == s[j + 1]);
        lemma_find_nl_at(s.drop_first(), i - 1);
    }
}

proof fn lemma_find_nl_none(s: Seq<u8>)
    requires
        forall|j: int| 0 <= j < s.len() ==> s[j] != 10,
    ensures
        find_nl(s) == -1,
    decreases s.len(),
{
    if s.len() > 0 {
        assert(forall|j: int| 0 <= j < s.drop_first().len() ==> s.drop_first()[j] == s[j + 1]);
        lemma_find_nl_none(s.drop_first());
    }
}

/// A line with one trailing carriage return dropped, as a `\r\n` terminator
/// leaves one.
pub open spec fn strip_cr(l: Seq<u8>) -> Seq<u8> {
    if l.len() > 0 && l.last() == 13 {
        l.drop_last()
    } else {
        l
    }
}

/// The lines of `s`: split at each line feed, a `\r` before the line feed
/// dropped, and no empty line for a trailing terminator.
pub open spec fn split_lines(s: Seq<u8>) -> Seq<Seq<u8>>
    decreases s.len(),
{
    if s.len() == 0 {
        Seq::empty()
    } else {
        let i = find_nl(s);
        if i < 0 || i + 1 > s.len() {
            seq![s]
        } else {
            seq![strip_cr(s.take(i))] + split_lines(s.skip(i + 1))
        }
    }
}

/// The views of a list of byte vectors.
pub open spec fn byte_views(ls: Seq<Vec<u8>>) -> Seq<Seq<u8>> {
    ls.map_values(|l: Vec<u8>| l@)
}

/// Copies `s[from..to]` out.
pub(crate) fn copy_range(s: &[u8], from: usize, to: usize) -> (r: Vec<u8>)
    requires
        from <= to <= s@.len(),
    ensures
        r@ == s@.subrange(from as int, to as int),
{
    let mut out: Vec<u8> = Vec::new();
    let mut i: usize = from;
    while i < to
        invariant
            from <= i <= to <= s@.len(),
            out@ =~= s@.subrange(from as int, i as int),
        decreases to - i,
    {
        out.push(s[i]);
        i = i + 1;
    }
    out
}

/// The lines of `s`, as [`split_lines`] lays them out.
pub fn split_lines_exec(s: &[u8]) -> (r: Vec<Vec<u8>>)
    ensures
        byte_views(r@) == split_lines(s@),
{
    let len = s.len();
    let mut out: Vec<Vec<u8>> = Vec::new();
    let mut pos: usize = 0;
    proof {
        assert(byte_views(out@) =~= Seq::<Seq<u8>>::empty());
        assert(s@.skip(0) =~= s@);
        assert(split_lines(s@) =~= byte_views(out@) + split_lines(s@.skip(0)));
    }
    while pos < len
        invariant
            pos <= len,
            len == s@.len(),
            split_lines(s@) == byte_views(out@) + split_lines(s@.skip(pos as int)),
        decreases len - pos,
    {
        let ghost tail = s@.skip(pos as int);
        // scan for the next line feed
        let mut j: usize = pos;
        while j < len && s[j] != 10
            invariant
                pos <= j <= len,
                len == s@.len(),
                forall|k: int| pos <= k < j ==> s@[k] != 10,
            decreases len - j,
        {
            j = j + 1;
        }
        proof {
            assert(forall|k: int| 0 <= k < j - pos ==> tail[k] == s@[pos + k]);
            if j < len {
                assert(tail[j - pos] == s@[j as int]);
                lemma_find_nl_at(tail, j - pos);
            } else {
                lemma_find_nl_none(tail);
            }
        }
        if j < len {
            // a terminated line: drop a carriage return before the terminator
            let line_end = if j > pos && s[j - 1] == 13 {
                j - 1
            } else {
                j
            };
            let line = copy_range(s, pos, line_end);
            proof {
                assert(tail.take(j - pos) =~= s@.subrange(pos as int, j as int));
                if j > pos && s@[j - 1] == 13 {
                    assert(tail.take(j - pos).drop_last() =~= s@.subrange(pos as int, j - 1));
                }
                assert(line@ == strip_cr(tail.take(j - pos)));
            }
            let ghost prev = out@;
            out.push(line);
            proof {
                assert(tail.skip(j - pos + 1) =~= s@.skip(j + 1));
                assert(split_lines(tail) == seq![strip_cr(tail.take(j - pos))] + split_lines(
                    s@.skip(j + 1),
                ));
                assert(byte_views(out@) =~= byte_views(prev) + seq![line@]);
            }
            pos = j + 1;
        } else {
            // the final, unterminated line
            let line = copy_range(s, pos, len);
            proof {
                assert(tail =~= s@.subrange(pos as int, len as int));
            }
            let ghost prev = out@;
            out.push(line);
            proof {
                assert(split_lines(tail) == seq![tail]);
                assert(s@.skip(len as int) =~= Seq::<u8>::empty());
                assert(byte_views(out@) =~= byte_views(prev) + seq![line@]);
            }
            pos = len;
        }
        proof {
            assert(split_lines(s@) =~= byte_views(out@) + split_lines(s@.skip(pos as int)));
        }
    }
    proof {
        assert(s@.skip(pos as int) =~= Seq::<u8>::empty());
        assert(byte_views(out@) =~= split_lines(s@));
    }
    out
}

/// Whether a line carries a payload: it starts with the bytes of `data:`.
pub open spec fn is_data_line(l: Seq<u8>) -> bool {
    l.len() >= 5 && l[0] == 100 && l[1] == 97 && l[2] == 116 && l[3] == 97 && l[4] == 58
}

/// The bytes of the stream-termination sentinel `[DONE]`.
pub open spec fn done_payload() -> Seq<u8> {
    seq![91u8, 68u8, 79u8, 78u8, 69u8, 93u8]
}

/// Scans a block's lines for payloads: each `data:` line contributes its
/// trimmed remainder when non-empty, and a remainder equal to the sentinel
/// ends the scan at once (`None`), dropping everything else in the block.
pub open spec fn scan_lines(lines: Seq<Seq<u8>>, acc: Seq<Seq<u8>>) -> Option<Seq<Seq<u8>>>
    decreases lines.len(),
{
    if lines.len() == 0 {
        Some(acc)
    } else {
        let l = lines[0];
        if is_data_line(l) {
            let t = trim_bytes(l.skip(5));
            if t == done_payload() {
                None
            } else if t.len() > 0 {
                scan_lines(lines.drop_first(), acc.push(t))
            } else {
                scan_lines(lines.drop_first(), acc)
            }
        } else {
            scan_lines(lines.drop_first(), acc)
        }
    }
}

/// Lines joined by one line feed.
pub open spec fn join_nl(ls: Seq<Seq<u8>>) -> Seq<u8>
    decreases ls,
{
    if ls.len() == 0 {
        Seq::empty()
    } else if ls.len() == 1 {
        ls[0]
    } else {
        join_nl(ls.drop_last()) + seq![10u8] + ls.last()
    }
}

/// What one event block means.
pub enum SpecBlock {
    /// The sentinel: the stream is over.
    Done,
    /// The bytes to parse as one JSON document.
    Payload(Seq<u8>),
    /// Nothing: no payload lines and no other content.
    Skip,
}

/// What a decoded block means: the sentinel ends the stream; payload lines
/// are joined by line feeds; a block without payload lines is tried whole,
/// trimmed, unless that leaves nothing.
pub open spec fn block_sem(sb: Seq<u8>) -> SpecBlock {
    match scan_lines(split_lines(sb), Seq::empty()) {
        None => SpecBlock::Done,
        Some(acc) => if acc.len() == 0 {
            if trim_bytes(sb).len() == 0 {
                SpecBlock::Skip
            } else {
                SpecBlock::Payload(trim_bytes(sb))
            }
        } else {
            SpecBlock::Payload(join_nl(acc))
        },
    }
}

/// What one event block means, with the payload owned.
pub enum BlockOutcome {
    Done,
    Payload(Vec<u8>),
    Skip,
}

/// The view of a block outcome.
pub open spec fn block_outcome_view(b: BlockOutcome) -> SpecBlock {
    match b {
        BlockOutcome::Done => SpecBlock::Done,
        BlockOutcome::Payload(p) => SpecBlock::Payload(p@),
        BlockOutcome::Skip => SpecBlock::Skip,
    }
}

/// Whether `l` starts with the bytes of `data:`.
fn data_prefix(l: &[u8]) -> (r: bool)
    ensures
        r == is_data_line(l@),
{
    l.len() >= 5 && l[0] == 100 && l[1] == 97 && l[2] == 116 && l[3] == 97 && l[4] == 58
}

/// Joins lines with one line feed, as [`join_nl`].
fn join_nl_exec(ls: &Vec<Vec<u8>>) -> (r: Vec<u8>)
    ensures
        r@ == join_nl(byte_views(ls@)),
{
    let mut out: Vec<u8> = Vec::new();
    let n = ls.len();
    let mut i: usize = 0;
    assert(byte_views(ls@).take(0) =~= Seq::<Seq<u8>>::empty());
    while i < n
        invariant
            i <= n,
            n == ls@.len(),
            out@ == join_nl(byte_views(ls@).take(i as int)),
        decreases n - i,
    {
        if i > 0 {
            out.push(10);
        }
        let line = &ls[i];
        let m = line.len();
        let mut k: usize = 0;
        let ghost before = out@;
        while k < m
            invariant
                k <= m,
                m == line@.len(),
                out@ =~= before + line@.take(k as int),
            decreases m - k,
        {
            out.push(line[k]);
            k = k + 1;
        }
        proof {
            assert(line@.take(m as int) =~= line@);
            assert(byte_views(ls@).take(i + 1).drop_last() =~= byte_views(ls@).take(i as int));
            assert(byte_views(ls@).take(i + 1).last() == ls@[i as int]@);
            assert(out@ =~= join_nl(byte_views(ls@).take(i + 1)));
        }
        i = i + 1;
    }
    assert(byte_views(ls@).take(n as int) =~= byte_views(ls@));
    out
}

/// Decodes one raw event block and decides what it means, per [`block_sem`]
/// applied to the lossily decoded bytes.
pub fn block_outcome(block: &[u8]) -> (r: BlockOutcome)
    ensures
        block_outcome_view(r) == block_sem(crate::json::lossy_of(block@)),
{
    let sb = crate::json::sanitize_utf8(block);
    let lines = split_lines_exec(sb.as_slice());
    let ghost all_lines = byte_views(lines@);
    let mut acc: Vec<Vec<u8>> = Vec::new();
    let n = lines.len();
    let mut i: usize = 0;
    proof {
        assert(all_lines.skip(0) =~= all_lines);
        assert(byte_views(acc@) =~= Seq::<Seq<u8>>::empty());
    }
    while i < n
        invariant
            i <= n,
            n == all_lines.len(),
            byte_views(lines@) == all_lines,
            scan_lines(all_lines, Seq::empty()) == scan_lines(
                all_lines.skip(i as int),
                byte_views(acc@),
            ),
        decreases n - i,
    {
        let line = &lines[i];
        proof {
            assert(all_lines.skip(i as int)[0] == all_lines[i as int]);
            assert(all_lines.skip(i as int).drop_first() =~= all_lines.skip(i + 1));
        }
        if data_prefix(line.as_slice()) {
            let rest = copy_range(line.as_slice(), 5, line.len());
            let t = trim_exec(rest.as_slice());
            proof {
                assert(rest@ =~= line@.skip(5));
            }
            let done_bytes: Vec<u8> = vec![91u8, 68u8, 79u8, 78u8, 69u8, 93u8];
            assert(done_bytes@ =~= done_payload());
            if bytes_eq_slices(t.as_slice(), done_bytes.as_slice()) {
                return BlockOutcome::Done;
            }
            if t.len() > 0 {
                let ghost prev = acc@;
                acc.push(t);
                assert(byte_views(acc@) =~= byte_views(prev).push(acc@.last()@));
            }
        }
        i = i + 1;
    }
    proof {
        assert(all_lines.skip(n as int) =~= Seq::<Seq<u8>>::empty());
    }
    if acc.len() == 0 {
        let t = trim_exec(sb.as_slice());
        if t.len() == 0 {
            BlockOutcome::Skip
        } else {
            BlockOutcome::Payload(t)
        }
    } else {
        BlockOutcome::Payload(join_nl_exec(&acc))
    }
}

/// Byte-for-byte slice equality.
fn bytes_eq_slices(a: &[u8], b: &[u8]) -> (r: bool)
    ensures
        r == (a@ == b@),
{
    crate::json::bytes_eq(a, b)
}

} // verus!
