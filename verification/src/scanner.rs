//! The line classifier: a single-pass lexical state machine that decides,
//! for every line of a file, whether it lies inside a marked `unsafe { ... }`
//! block, tracking nested brace depth without a full language parser.

use vstd::prelude::*;
use vstd::string::StrSliceExecFns;

use crate::errors::ScanError;

verus! {

// ---------------------------------------------------------------------------
// The model: characters, the block-open pattern, and lines
// ---------------------------------------------------------------------------

/// A character with the Unicode `White_Space` property: what both the
/// pattern's whitespace class and `char::is_whitespace` recognize.
pub open spec fn is_ws_char(c: char) -> bool {
    let u = c as u32;
    (9 <= u && u <= 13) || u == 32 || u == 0x85 || u == 0xA0 || u == 0x1680
        || (0x2000 <= u && u <= 0x200A) || u == 0x2028 || u == 0x2029
        || u == 0x202F || u == 0x205F || u == 0x3000
}

/// The block-open pattern stands at position `i` of the line: a whitespace
/// character, the six letters of the keyword, a whitespace character, and an
/// opening brace.
pub open spec fn opens_at(line: Seq<char>, i: int) -> bool {
    &&& 0 <= i
    &&& i + 9 <= line.len()
    &&& is_ws_char(line[i])
    &&& line[i + 1] == 'u'
    &&& line[i + 2] == 'n'
    &&& line[i + 3] == 's'
    &&& line[i + 4] == 'a'
    &&& line[i + 5] == 'f'
    &&& line[i + 6] == 'e'
    &&& is_ws_char(line[i + 7])
    &&& line[i + 8] == '{'
}

/// The line textually matches the block-open pattern somewhere.
pub open spec fn line_opens_block(line: Seq<char>) -> bool {
    exists|i: int| opens_at(line, i)
}

/// Every character of the line is whitespace (so the trimmed line is empty).
pub open spec fn line_is_blank(line: Seq<char>) -> bool {
    forall|i: int| 0 <= i < line.len() ==> is_ws_char(#[trigger] line[i])
}

/// Brace depth after scanning the line left to right from depth `d`:
/// an opening brace pushes, a closing brace pops, and popping at depth
/// zero is a no-op rather than an underflow.
pub open spec fn depth_after_chars(line: Seq<char>, d: nat) -> nat
    decreases line.len(),
{
    if line.len() == 0 {
        d
    } else {
        let d1 = if line[0] == '{' {
            d + 1
        } else if line[0] == '}' {
            if d > 0 {
                (d - 1) as nat
            } else {
                0
            }
        } else {
            d
        };
        depth_after_chars(line.drop_first(), d1)
    }
}

/// The index of the first newline at or after `from`, or the length of the
/// text when no newline follows.
pub open spec fn find_newline(s: Seq<char>, from: int) -> int
    decreases s.len() - from,
{
    if from < 0 || from >= s.len() {
        s.len() as int
    } else if s[from] == '\n' {
        from
    } else {
        find_newline(s, from + 1)
    }
}

/// The text of the line that starts at `start` and whose newline stands at
/// `nl` (`nl == s.len()` when the text ends without one): a carriage return
/// immediately before the newline belongs to the line ending, not the line.
pub open spec fn line_at(s: Seq<char>, start: int, nl: int) -> Seq<char> {
    if nl < s.len() && start <= nl - 1 && s[nl - 1] == '\r' {
        s.subrange(start, nl - 1)
    } else {
        s.subrange(start, nl)
    }
}

/// The lines of the text from position `start` on, split as `str::lines`
/// splits: at each newline, with a preceding carriage return stripped, and
/// with no empty final line after a trailing newline.
pub open spec fn lines_from(s: Seq<char>, start: int) -> Seq<Seq<char>>
    decreases s.len() - start
        via lines_from_decreases
{
    if start < 0 || start >= s.len() {
        Seq::empty()
    } else {
        let nl = find_newline(s, start);
        if nl >= s.len() {
            seq![s.subrange(start, s.len() as int)]
        } else {
            seq![line_at(s, start, nl)] + lines_from(s, nl + 1)
        }
    }
}

#[via_fn]
proof fn lines_from_decreases(s: Seq<char>, start: int) {
    if 0 <= start < s.len() {
        lemma_find_newline(s, start);
    }
}

/// The lines of a whole text.
pub open spec fn spec_lines(s: Seq<char>) -> Seq<Seq<char>> {
    lines_from(s, 0)
}

/// A text has no more lines than characters: each line consumes at least
/// one character of the text. Callers use this to bound a report's counts.
pub proof fn lemma_lines_count_bounded(s: Seq<char>, start: int)
    requires
        0 <= start <= s.len(),
    ensures
        lines_from(s, start).len() <= s.len() - start,
    decreases s.len() - start,
{
    if start < s.len() {
        let nl = find_newline(s, start);
        lemma_find_newline(s, start);
        if nl < s.len() {
            lemma_lines_count_bounded(s, nl + 1);
        }
    }
}

/// What `find_newline` returns: the first newline of `s[from..]`, if any.
pub proof fn lemma_find_newline(s: Seq<char>, from: int)
    requires
        0 <= from <= s.len(),
    ensures
        from <= find_newline(s, from) <= s.len(),
        find_newline(s, from) < s.len() ==> s[find_newline(s, from)] == '\n',
        forall|j: int| from <= j < find_newline(s, from) ==> s[j] != '\n',
    decreases s.len() - from,
{
    if from < s.len() && s[from] != '\n' {
        lemma_find_newline(s, from + 1);
    }
}

// ---------------------------------------------------------------------------
// The scanner state machine
// ---------------------------------------------------------------------------

/// The scanner's state between lines: whether the scan stands inside a
/// marked block, at which brace depth, and how many lines were marked
/// so far.
pub ghost struct ScanState {
    pub in_block: bool,
    pub depth: nat,
    pub marked: nat,
}

/// The state before the first line.
pub open spec fn initial_state() -> ScanState {
    ScanState { in_block: false, depth: 0, marked: 0 }
}

/// Whether a line is classified as marked: it matches the block-open
/// pattern, or the scan is already inside a block — where, under the
/// policy that excludes blank lines, a blank line does not count.
pub open spec fn line_is_marked(st: ScanState, line: Seq<char>, count_blank: bool) -> bool {
    line_opens_block(line) || (st.in_block && (count_blank || !line_is_blank(line)))
}

/// One step of the state machine: a marked line is counted and has its
/// braces folded into the depth, which decides whether the block stays
/// open; an unmarked line leaves the state untouched.
pub open spec fn scan_step(st: ScanState, line: Seq<char>, count_blank: bool) -> ScanState {
    if line_is_marked(st, line, count_blank) {
        let d = depth_after_chars(line, st.depth);
        ScanState { in_block: d > 0, depth: d, marked: st.marked + 1 }
    } else {
        st
    }
}

/// The state after scanning all of `lines` from state `st`.
pub open spec fn scan_from(st: ScanState, lines: Seq<Seq<char>>, count_blank: bool) -> ScanState
    decreases lines.len(),
{
    if lines.len() == 0 {
        st
    } else {
        scan_from(scan_step(st, lines[0], count_blank), lines.drop_first(), count_blank)
    }
}

/// The per-line classifications produced by scanning `lines` from `st`.
pub open spec fn flags_from(st: ScanState, lines: Seq<Seq<char>>, count_blank: bool) -> Seq<bool>
    decreases lines.len(),
{
    if lines.len() == 0 {
        Seq::empty()
    } else {
        seq![line_is_marked(st, lines[0], count_blank)] + flags_from(
            scan_step(st, lines[0], count_blank),
            lines.drop_first(),
            count_blank,
        )
    }
}

/// How many of the text's lines a full scan marks.
pub open spec fn marked_count(lines: Seq<Seq<char>>, count_blank: bool) -> nat {
    scan_from(initial_state(), lines, count_blank).marked
}

/// The classification of each of the text's lines.
pub open spec fn spec_flags(lines: Seq<Seq<char>>, count_blank: bool) -> Seq<bool> {
    flags_from(initial_state(), lines, count_blank)
}

/// The scanner's state after the first `k` lines.
pub open spec fn state_at(lines: Seq<Seq<char>>, count_blank: bool, k: int) -> ScanState {
    scan_from(initial_state(), lines.take(k), count_blank)
}

/// Scanning one line and then the rest is one scan of all of them.
pub proof fn lemma_scan_from_cons(
    st: ScanState,
    line: Seq<char>,
    rest: Seq<Seq<char>>,
    count_blank: bool,
)
    ensures
        scan_from(st, seq![line] + rest, count_blank) == scan_from(
            scan_step(st, line, count_blank),
            rest,
            count_blank,
        ),
        flags_from(st, seq![line] + rest, count_blank) == seq![
            line_is_marked(st, line, count_blank),
        ] + flags_from(scan_step(st, line, count_blank), rest, count_blank),
{
    let all = seq![line] + rest;
    assert(all[0] == line);
    assert(all.drop_first() =~= rest);
}

/// A scan marks at most as many lines as it reads.
pub proof fn lemma_marked_bounded(st: ScanState, lines: Seq<Seq<char>>, count_blank: bool)
    ensures
        scan_from(st, lines, count_blank).marked <= st.marked + lines.len(),
    decreases lines.len(),
{
    if lines.len() > 0 {
        lemma_marked_bounded(scan_step(st, lines[0], count_blank), lines.drop_first(), count_blank);
    }
}

// ---------------------------------------------------------------------------
// Laws of the scanner
// ---------------------------------------------------------------------------

/// Every scan of `lines` yields as many classifications as there are lines.
pub proof fn lemma_flags_len(st: ScanState, lines: Seq<Seq<char>>, count_blank: bool)
    ensures
        flags_from(st, lines, count_blank).len() == lines.len(),
    decreases lines.len(),
{
    if lines.len() > 0 {
        lemma_flags_len(scan_step(st, lines[0], count_blank), lines.drop_first(), count_blank);
    }
}

/// A line's classification is decided by the state the scan reaches just
/// before it.
pub proof fn lemma_flag_at(st: ScanState, lines: Seq<Seq<char>>, count_blank: bool, j: int)
    requires
        0 <= j < lines.len(),
    ensures
        flags_from(st, lines, count_blank)[j] == line_is_marked(
            scan_from(st, lines.take(j), count_blank),
            lines[j],
            count_blank,
        ),
    decreases j,
{
    lemma_flags_len(st, lines, count_blank);
    if j == 0 {
        assert(lines.take(0) =~= Seq::<Seq<char>>::empty());
    } else {
        let st1 = scan_step(st, lines[0], count_blank);
        let rest = lines.drop_first();
        lemma_flags_len(st1, rest, count_blank);
        lemma_flag_at(st1, rest, count_blank, j - 1);
        assert(rest[j - 1] == lines[j]);
        assert(lines.take(j) =~= seq![lines[0]] + rest.take(j - 1));
        lemma_scan_from_cons(st, lines[0], rest.take(j - 1), count_blank);
    }
}

/// A scan that stands outside any block stays there as long as no line
/// matches the block-open pattern, and marks nothing.
pub proof fn lemma_scan_stays_out(st: ScanState, lines: Seq<Seq<char>>, count_blank: bool)
    requires
        !st.in_block,
        forall|i: int| 0 <= i < lines.len() ==> !line_opens_block(#[trigger] lines[i]),
    ensures
        scan_from(st, lines, count_blank) == st,
    decreases lines.len(),
{
    if lines.len() > 0 {
        assert(!line_is_marked(st, lines[0], count_blank));
        assert(forall|i: int|
            0 <= i < lines.len() - 1 ==> lines.drop_first()[i] == #[trigger] lines[i + 1]);
        lemma_scan_stays_out(st, lines.drop_first(), count_blank);
    }
}

/// A text in which no line matches the block-open pattern has no marked
/// lines at all: the scan counts every line and marks none.
pub proof fn lemma_no_open_no_marked(lines: Seq<Seq<char>>, count_blank: bool)
    requires
        forall|i: int| 0 <= i < lines.len() ==> !line_opens_block(#[trigger] lines[i]),
    ensures
        marked_count(lines, count_blank) == 0,
{
    lemma_scan_stays_out(initial_state(), lines, count_blank);
}

/// A well-balanced single-line block — a line that matches the block-open
/// pattern and closes every brace it opens — is marked exactly once, and
/// the scan stands outside any block again after it.
pub proof fn lemma_single_line_block(st: ScanState, line: Seq<char>, count_blank: bool)
    requires
        !st.in_block,
        st.depth == 0,
        line_opens_block(line),
        depth_after_chars(line, 0) == 0,
    ensures
        scan_step(st, line, count_blank).marked == st.marked + 1,
        !scan_step(st, line, count_blank).in_block,
        scan_step(st, line, count_blank).depth == 0,
{
}

/// A block opened on line `n0` and closed on line `n0 + k`, with the
/// intervening lines non-blank, marks the lines `n0 ..= n0 + k`: each of
/// them is classified as marked, while a line before the block or right
/// after it is not, unless it matches the block-open pattern itself or
/// stands inside another block.
pub proof fn lemma_block_span(lines: Seq<Seq<char>>, count_blank: bool, n0: int, k: int)
    requires
        0 <= n0,
        0 <= k,
        n0 + k < lines.len(),
        !state_at(lines, count_blank, n0).in_block,
        line_opens_block(lines[n0]),
        forall|j: int| n0 < j <= n0 + k ==> !line_is_blank(#[trigger] lines[j]),
        forall|j: int| n0 < j <= n0 + k ==> state_at(lines, count_blank, j).in_block,
    ensures
        forall|j: int| n0 <= j <= n0 + k ==> #[trigger] spec_flags(lines, count_blank)[j],
        n0 + k + 1 < lines.len() && !state_at(lines, count_blank, n0 + k + 1).in_block
            && !line_opens_block(lines[n0 + k + 1]) ==> !spec_flags(lines, count_blank)[n0 + k
            + 1],
        forall|j: int|
            0 <= j < n0 && !state_at(lines, count_blank, j).in_block && !line_opens_block(
                lines[j],
            ) ==> !(#[trigger] spec_flags(lines, count_blank)[j]),
{
    lemma_flags_len(initial_state(), lines, count_blank);
    assert forall|j: int| n0 <= j <= n0 + k implies #[trigger] spec_flags(
        lines,
        count_blank,
    )[j] by {
        lemma_flag_at(initial_state(), lines, count_blank, j);
        if j > n0 {
            assert(state_at(lines, count_blank, j).in_block);
            assert(!line_is_blank(lines[j]));
        }
        assert(scan_from(initial_state(), lines.take(j), count_blank) == state_at(
            lines,
            count_blank,
            j,
        ));
    }
    if n0 + k + 1 < lines.len() {
        lemma_flag_at(initial_state(), lines, count_blank, n0 + k + 1);
    }
    assert forall|j: int|
        0 <= j < n0 && !state_at(lines, count_blank, j).in_block && !line_opens_block(
            lines[j],
        ) implies !(#[trigger] spec_flags(lines, count_blank)[j]) by {
        lemma_flag_at(initial_state(), lines, count_blank, j);
        assert(scan_from(initial_state(), lines.take(j), count_blank) == state_at(
            lines,
            count_blank,
            j,
        ));
    }
}

// ---------------------------------------------------------------------------
// The executable scanner
// ---------------------------------------------------------------------------

/// Decides `is_ws_char` for one character.
fn ws_char(c: char) -> (r: bool)
    ensures
        r == is_ws_char(c),
{
    let u = c as u32;
    (9 <= u && u <= 13) || u == 32 || u == 0x85 || u == 0xA0 || u == 0x1680 || (0x2000 <= u && u
        <= 0x200A) || u == 0x2028 || u == 0x2029 || u == 0x202F || u == 0x205F || u == 0x3000
}

/// Decides whether every character of the line is whitespace.
fn blank_line(line: &str) -> (r: bool)
    ensures
        r == line_is_blank(line@),
{
    let n = line.unicode_len();
    let mut i: usize = 0;
    while i < n
        invariant
            n == line@.len(),
            0 <= i <= n,
            forall|j: int| 0 <= j < i ==> is_ws_char(#[trigger] line@[j]),
        decreases n - i,
    {
        if !ws_char(line.get_char(i)) {
            assert(!is_ws_char(line@[i as int]));
            return false;
        }
        i += 1;
    }
    true
}

/// Folds the line's braces into the depth, left to right.
fn depth_after_line(line: &str, d: u64) -> (r: u64)
    requires
        d as nat + line@.len() <= u64::MAX,
    ensures
        r as nat == depth_after_chars(line@, d as nat),
        r as nat <= d as nat + line@.len(),
{
    let n = line.unicode_len();
    let mut i: usize = 0;
    let mut cur: u64 = d;
    proof {
        assert(line@.skip(0) =~= line@);
    }
    while i < n
        invariant
            n == line@.len(),
            0 <= i <= n,
            d as nat + n as nat <= u64::MAX,
            cur as nat <= d as nat + i as nat,
            depth_after_chars(line@, d as nat) == depth_after_chars(
                line@.skip(i as int),
                cur as nat,
            ),
        decreases n - i,
    {
        let c = line.get_char(i);
        proof {
            assert(line@.skip(i as int)[0] == line@[i as int]);
            assert(line@.skip(i as int).drop_first() =~= line@.skip(i as int + 1));
        }
        if c == '{' {
            cur = cur + 1;
        } else if c == '}' {
            if cur > 0 {
                cur = cur - 1;
            }
        }
        i += 1;
    }
    proof {
        assert(line@.skip(n as int) =~= Seq::<char>::empty());
    }
    cur
}

/// Finds the first newline at or after `start`.
fn find_newline_at(content: &str, start: usize, n: usize) -> (nl: usize)
    requires
        n == content@.len(),
        start <= n,
    ensures
        nl as int == find_newline(content@, start as int),
        start <= nl <= n,
{
    let mut j: usize = start;
    while j < n
        invariant
            n == content@.len(),
            start <= j <= n,
            find_newline(content@, start as int) == find_newline(content@, j as int),
        decreases n - j,
    {
        if content.get_char(j) == '\n' {
            return j;
        }
        j += 1;
    }
    j
}

/// Relies on `regex::Regex::new` and `regex::Regex::is_match` with the fixed
/// pattern `\sunsafe\s\{`: the pattern stands for a Unicode-whitespace
/// character, the six letters `u n s a f e`, a second whitespace character
/// and an opening brace in a row, and `is_match` reports whether a match
/// begins anywhere in the haystack. The pattern is a constant and valid, so
/// compilation depends on nothing but that constant and always succeeds:
/// the result is never `None`.
#[verifier::external_body]
fn regex_line_opens_block(line: &str) -> (r: Option<bool>)
    ensures
        r is Some,
        r matches Some(b) ==> b == line_opens_block(line@),
{
    match regex::Regex::new(r"\sunsafe\s\{") {
        Ok(re) => Some(re.is_match(line)),
        Err(_) => None,
    }
}

/// One pass over the whole text: the per-line classifications, the marked
/// count and the line count.
fn scan_core(content: &str, count_blank: bool) -> (r: (Vec<bool>, u64, u64))
    ensures
        r.0@ == spec_flags(spec_lines(content@), count_blank),
        r.1 as nat == marked_count(spec_lines(content@), count_blank),
        r.2 as nat == spec_lines(content@).len(),
        r.1 <= r.2,
{
    let n = content.unicode_len();
    let mut flags: Vec<bool> = Vec::new();
    let mut in_block = false;
    let mut depth: u64 = 0;
    let mut marked: u64 = 0;
    let mut total: u64 = 0;
    let mut start: usize = 0;
    let ghost all = spec_lines(content@);
    let ghost mut st = initial_state();
    while start < n
        invariant
            n == content@.len(),
            0 <= start <= n,
            all == spec_lines(content@),
            st.in_block == in_block,
            st.depth == depth as nat,
            st.marked == marked as nat,
            depth as nat <= start as nat,
            marked as nat <= total as nat,
            total as nat <= start as nat,
            total as nat + lines_from(content@, start as int).len() == all.len(),
            flags@.len() == total as nat,
            scan_from(st, lines_from(content@, start as int), count_blank) == scan_from(
                initial_state(),
                all,
                count_blank,
            ),
            flags@ + flags_from(st, lines_from(content@, start as int), count_blank) == flags_from(
                initial_state(),
                all,
                count_blank,
            ),
        decreases n - start,
    {
        let ghost st0 = st;
        let ghost flags0 = flags@;
        let nl = find_newline_at(content, start, n);
        proof {
            lemma_find_newline(content@, start as int);
        }
        let line_end = if nl < n && nl > start && content.get_char(nl - 1) == '\r' {
            nl - 1
        } else {
            nl
        };
        let line = content.substring_char(start, line_end);
        proof {
            if nl < n {
                assert(line@ =~= line_at(content@, start as int, nl as int));
            } else {
                assert(line@ =~= content@.subrange(start as int, n as int));
            }
        }
        let opens = match regex_line_opens_block(line) {
            Some(b) => b,
            None => {
                proof {
                    assert(false);
                }
                false
            },
        };
        let is_marked = opens || (in_block && (count_blank || !blank_line(line)));
        proof {
            assert(is_marked == line_is_marked(st0, line@, count_blank));
        }
        if is_marked {
            depth = depth_after_line(line, depth);
            in_block = depth > 0;
            marked = marked + 1;
        }
        total = total + 1;
        flags.push(is_marked);
        proof {
            let rest = if nl < n {
                lines_from(content@, nl as int + 1)
            } else {
                Seq::<Seq<char>>::empty()
            };
            if nl >= n {
                assert(lines_from(content@, start as int) =~= seq![line@] + rest);
            } else {
                assert(lines_from(content@, start as int) == seq![line@] + rest);
            }
            lemma_scan_from_cons(st0, line@, rest, count_blank);
            st = scan_step(st0, line@, count_blank);
            assert(flags@ =~= flags0 + seq![is_marked]);
            assert((flags0 + seq![is_marked]) + flags_from(st, rest, count_blank) =~= flags0 + (
            seq![is_marked] + flags_from(st, rest, count_blank)));
        }
        start = if nl >= n {
            n
        } else {
            nl + 1
        };
    }
    proof {
        assert(lines_from(content@, start as int) =~= Seq::<Seq<char>>::empty());
        assert(flags@ + Seq::<bool>::empty() =~= flags@);
    }
    (flags, marked, total)
}

/// Classifies a file's text: how many lines lie inside a marked block, and
/// how many lines the text has in all. `count_blank_lines_in_block` decides
/// whether a blank line inside an open block counts as marked. The result
/// carries the error type of the fallible pattern compilation, but the
/// fixed pattern always compiles, so the scan always succeeds.
pub fn classify_content(content: &str, count_blank_lines_in_block: bool) -> (r: Result<
    (u64, u64),
    ScanError,
>)
    ensures
        r is Ok,
        r matches Ok(c) ==> ({
            &&& c.0 as nat == marked_count(spec_lines(content@), count_blank_lines_in_block)
            &&& c.1 as nat == spec_lines(content@).len()
            &&& c.0 <= c.1
        }),
{
    let (_, m, t) = scan_core(content, count_blank_lines_in_block);
    Ok((m, t))
}

/// Splits a text into its lines, exactly as the scanner's model splits it.
pub fn split_lines(content: &str) -> (r: Vec<String>)
    ensures
        r@.len() == spec_lines(content@).len(),
        forall|i: int| 0 <= i < r@.len() ==> #[trigger] r@[i]@ == spec_lines(content@)[i],
{
    let n = content.unicode_len();
    let mut out: Vec<String> = Vec::new();
    let mut start: usize = 0;
    let ghost all = spec_lines(content@);
    while start < n
        invariant
            n == content@.len(),
            0 <= start <= n,
            all == spec_lines(content@),
            out@.len() + lines_from(content@, start as int).len() == all.len(),
            out@.len() <= start as nat,
            lines_from(content@, start as int) =~= all.skip(out@.len() as int),
            forall|i: int| 0 <= i < out@.len() ==> #[trigger] out@[i]@ == all[i],
        decreases n - start,
    {
        let ghost done = out@.len() as int;
        let nl = find_newline_at(content, start, n);
        proof {
            lemma_find_newline(content@, start as int);
        }
        let line_end = if nl < n && nl > start && content.get_char(nl - 1) == '\r' {
            nl - 1
        } else {
            nl
        };
        let line = content.substring_char(start, line_end);
        proof {
            if nl < n {
                assert(line@ =~= line_at(content@, start as int, nl as int));
            } else {
                assert(line@ =~= content@.subrange(start as int, n as int));
            }
            let rest = if nl < n {
                lines_from(content@, nl as int + 1)
            } else {
                Seq::<Seq<char>>::empty()
            };
            assert(lines_from(content@, start as int) =~= seq![line@] + rest);
            assert(all.skip(done)[0] == all[done]);
            assert(all.skip(done).drop_first() =~= all.skip(done + 1));
            assert(rest =~= (seq![line@] + rest).drop_first());
        }
        out.push(line.to_owned());
        start = if nl >= n {
            n
        } else {
            nl + 1
        };
    }
    proof {
        assert(lines_from(content@, start as int) =~= Seq::<Seq<char>>::empty());
    }
    out
}

/// The line holds a statement terminator.
pub open spec fn has_semicolon(line: Seq<char>) -> bool {
    exists|i: int| 0 <= i < line.len() && line[i] == ';'
}

/// Decides `has_semicolon` for a line.
fn line_has_semicolon(line: &str) -> (r: bool)
    ensures
        r == has_semicolon(line@),
{
    let n = line.unicode_len();
    let mut i: usize = 0;
    while i < n
        invariant
            n == line@.len(),
            0 <= i <= n,
            forall|j: int| 0 <= j < i ==> line@[j] != ';',
        decreases n - i,
    {
        if line.get_char(i) == ';' {
            return true;
        }
        i += 1;
    }
    false
}

/// Some line of the text was classified as marked.
pub open spec fn any_marked(flags: Seq<bool>) -> bool {
    exists|i: int| 0 <= i < flags.len() && flags[i]
}

/// The body of an instrumented file: every line kept in order, with the
/// instrumentation call inserted right after each marked line that holds
/// a statement terminator.
pub open spec fn spec_instrumented(
    lines: Seq<Seq<char>>,
    flags: Seq<bool>,
    call_stmt: Seq<char>,
) -> Seq<Seq<char>>
    decreases lines.len(),
{
    if lines.len() == 0 {
        Seq::empty()
    } else {
        let rest = spec_instrumented(lines.drop_first(), flags.drop_first(), call_stmt);
        if flags[0] && has_semicolon(lines[0]) {
            seq![lines[0], call_stmt] + rest
        } else {
            seq![lines[0]] + rest
        }
    }
}

/// Builds the rewritten form of a scanned file from its lines and their
/// classifications: the fixed helper definition first, then every line,
/// with the instrumentation call inserted after each marked line that
/// holds a statement terminator. A file without a marked line is left
/// alone (`None`).
pub fn instrumented_lines(
    lines: &Vec<String>,
    flags: &Vec<bool>,
    helper: &String,
    call_stmt: &String,
) -> (r: Option<Vec<String>>)
    requires
        flags@.len() == lines@.len(),
    ensures
        r is Some <==> any_marked(flags@),
        r matches Some(v) ==> ({
            let body = spec_instrumented(
                lines@.map_values(|s: String| s@),
                flags@,
                call_stmt@,
            );
            &&& v@.len() == 1 + body.len()
            &&& v@[0]@ == helper@
            &&& forall|i: int| 1 <= i < v@.len() ==> #[trigger] v@[i]@ == body[i - 1]
        }),
{
    let ghost ls = lines@.map_values(|s: String| s@);
    let ghost body = spec_instrumented(ls, flags@, call_stmt@);
    let n = lines.len();
    let mut out: Vec<String> = Vec::new();
    let mut found = false;
    let mut j: usize = 0;
    out.push(helper.clone());
    proof {
        assert(out@.skip(1) =~= Seq::<String>::empty());
        assert(out@.skip(1).map_values(|s: String| s@) =~= Seq::<Seq<char>>::empty());
        assert(ls.skip(0) =~= ls);
        assert(flags@.skip(0) =~= flags@);
        assert(Seq::<Seq<char>>::empty() + body =~= body);
        assert(flags@.take(0) =~= Seq::<bool>::empty());
    }
    while j < n
        invariant
            n == lines@.len(),
            flags@.len() == lines@.len(),
            0 <= j <= n,
            ls == lines@.map_values(|s: String| s@),
            body == spec_instrumented(ls, flags@, call_stmt@),
            found == any_marked(flags@.take(j as int)),
            out@.len() >= 1,
            out@[0]@ == helper@,
            out@.skip(1).map_values(|s: String| s@) + spec_instrumented(
                ls.skip(j as int),
                flags@.skip(j as int),
                call_stmt@,
            ) =~= body,
        decreases n - j,
    {
        let ghost done = out@;
        proof {
            assert(ls.skip(j as int)[0] == ls[j as int]);
            assert(ls[j as int] == lines@[j as int]@);
            assert(ls.skip(j as int).drop_first() =~= ls.skip(j as int + 1));
            assert(flags@.skip(j as int)[0] == flags@[j as int]);
            assert(flags@.skip(j as int).drop_first() =~= flags@.skip(j as int + 1));
            assert(flags@.take(j as int + 1).drop_last() =~= flags@.take(j as int));
        }
        out.push(lines[j].clone());
        if flags[j] {
            found = true;
            if line_has_semicolon(lines[j].as_str()) {
                out.push(call_stmt.clone());
            }
        }
        proof {
            if any_marked(flags@.take(j as int)) {
                let i0 = choose|i: int| 0 <= i < j && flags@.take(j as int)[i];
                assert(flags@.take(j as int + 1)[i0]);
            }
            if flags@[j as int] {
                assert(flags@.take(j as int + 1)[j as int]);
            }
            if !any_marked(flags@.take(j as int)) && !flags@[j as int] {
                assert forall|i: int| 0 <= i < j + 1 implies !(#[trigger] flags@.take(
                    j as int + 1,
                )[i]) by {
                    if i < j {
                        assert(!flags@.take(j as int)[i]);
                    }
                }
            }
            let tail1 = spec_instrumented(
                ls.skip(j as int + 1),
                flags@.skip(j as int + 1),
                call_stmt@,
            );
            let head = if flags@[j as int] && has_semicolon(ls[j as int]) {
                seq![ls[j as int], call_stmt@]
            } else {
                seq![ls[j as int]]
            };
            assert(spec_instrumented(ls.skip(j as int), flags@.skip(j as int), call_stmt@)
                == head + tail1);
            assert(out@.skip(1).map_values(|s: String| s@) =~= done.skip(1).map_values(
                |s: String| s@,
            ) + head);
            assert((done.skip(1).map_values(|s: String| s@) + head) + tail1 =~= done.skip(
                1,
            ).map_values(|s: String| s@) + (head + tail1));
        }
        j += 1;
    }
    proof {
        assert(flags@.take(n as int) =~= flags@);
        assert(ls.skip(n as int) =~= Seq::<Seq<char>>::empty());
        assert(out@.skip(1).map_values(|s: String| s@) =~= body);
    }
    if found {
        Some(out)
    } else {
        None
    }
}

/// Classifies every line of a file's text: the boolean at position `k` says
/// whether line `k` lies inside a marked block.
pub fn classify_flags(content: &str, count_blank_lines_in_block: bool) -> (r: Result<
    Vec<bool>,
    ScanError,
>)
    ensures
        r is Ok,
        r matches Ok(f) ==> f@ == spec_flags(spec_lines(content@), count_blank_lines_in_block),
{
    let (f, _, _) = scan_core(content, count_blank_lines_in_block);
    Ok(f)
}

} // verus!
