//! The escape-aware scanner: the two bits of state (`in_string`,
//! `escape_next`) that decide whether a byte lies inside a string literal.
//! The size parser, the minifier and the prettifier all consume bytes under
//! exactly this state machine, so it is defined once here.
use vstd::prelude::*;

verus! {

/// Byte value of `"`.
pub const QUOTE: u8 = 34;
/// Byte value of `\`.
pub const BACKSLASH: u8 = 92;
/// Byte value of `{`.
pub const OPEN_BRACE: u8 = 123;
/// Byte value of `}`.
pub const CLOSE_BRACE: u8 = 125;
/// Byte value of `[`.
pub const OPEN_BRACKET: u8 = 91;
/// Byte value of `]`.
pub const CLOSE_BRACKET: u8 = 93;
/// Byte value of `,`.
pub const COMMA: u8 = 44;
/// Byte value of `:`.
pub const COLON: u8 = 58;
/// Byte value of a space.
pub const SPACE: u8 = 32;
/// Byte value of `\n`.
pub const NEWLINE: u8 = 10;
/// Byte value of `\r`.
pub const CARRIAGE_RETURN: u8 = 13;
/// Byte value of `\t`.
pub const TAB: u8 = 9;
/// Byte value of the vertical tab.
pub const LINE_TAB: u8 = 11;
/// Byte value of the form feed.
pub const FORM_FEED: u8 = 12;
/// Byte value of `#`, the filled cell of a usage bar.
pub const HASH: u8 = 35;

/// The four whitespace bytes of the JSON grammar; the only bytes the size
/// parser treats as insignificant whitespace.
pub open spec fn is_json_ws(c: u8) -> bool {
    c == SPACE || c == TAB || c == NEWLINE || c == CARRIAGE_RETURN
}

/// Whitespace as the streaming transforms (minify, prettify) see it: the
/// ASCII whitespace bytes.  On valid JSON only the four bytes of
/// `is_json_ws` can occur outside a string, so the two notions agree there.
pub open spec fn is_stream_ws(c: u8) -> bool {
    is_json_ws(c) || c == LINE_TAB || c == FORM_FEED
}

/// Executable twin of `is_json_ws`.
pub fn json_ws(c: u8) -> (r: bool)
    ensures
        r == is_json_ws(c),
{
    c == SPACE || c == TAB || c == NEWLINE || c == CARRIAGE_RETURN
}

/// Executable twin of `is_stream_ws`.
pub fn stream_ws(c: u8) -> (r: bool)
    ensures
        r == is_stream_ws(c),
{
    c == SPACE || c == TAB || c == NEWLINE || c == CARRIAGE_RETURN || c == LINE_TAB
        || c == FORM_FEED
}

/// The scanner's state: inside a string literal, and right after an
/// unconsumed `\` inside one.
pub ghost struct ScanState {
    pub in_string: bool,
    pub escape_next: bool,
}

/// State at the start of a document.
pub open spec fn scan_init() -> ScanState {
    ScanState { in_string: false, escape_next: false }
}

/// One step of the scanner: an escaped byte is literal whatever it is, an
/// unescaped quote toggles `in_string`, a backslash inside a string escapes
/// the byte after it, everything else leaves the state alone.
pub open spec fn scan_step(st: ScanState, c: u8) -> ScanState {
    if st.escape_next {
        ScanState { in_string: st.in_string, escape_next: false }
    } else if c == QUOTE {
        ScanState { in_string: !st.in_string, escape_next: false }
    } else if c == BACKSLASH && st.in_string {
        ScanState { in_string: true, escape_next: true }
    } else {
        st
    }
}

/// The scanner's state after running over a whole sequence.
pub open spec fn scan_fold(st: ScanState, s: Seq<u8>) -> ScanState
    decreases s.len(),
{
    if s.len() == 0 {
        st
    } else {
        scan_fold(scan_step(st, s[0]), s.drop_first())
    }
}

/// Index of the first unescaped `"` at or after `i`, scanning with the
/// escape state `esc`; `None` when the sequence ends first.
pub open spec fn string_body_end(s: Seq<u8>, i: int, esc: bool) -> Option<int>
    decreases s.len() - i,
{
    if i < 0 || i >= s.len() {
        None
    } else if esc {
        string_body_end(s, i + 1, false)
    } else if s[i] == QUOTE {
        Some(i)
    } else if s[i] == BACKSLASH {
        string_body_end(s, i + 1, true)
    } else {
        string_body_end(s, i + 1, false)
    }
}

/// Wherever the scan finds a closing quote, it lies in range and really is a
/// quote.
pub proof fn lemma_string_body_end_bounds(s: Seq<u8>, i: int, esc: bool)
    ensures
        string_body_end(s, i, esc) matches Some(q) ==> i <= q < s.len() && s[q] == QUOTE,
    decreases s.len() - i,
{
    if 0 <= i < s.len() {
        lemma_string_body_end_bounds(s, i + 1, false);
        lemma_string_body_end_bounds(s, i + 1, true);
    }
}

/// Folding over a concatenation folds over the parts in turn.
pub proof fn lemma_scan_fold_concat(st: ScanState, a: Seq<u8>, b: Seq<u8>)
    ensures
        scan_fold(st, a + b) == scan_fold(scan_fold(st, a), b),
    decreases a.len(),
{
    if a.len() == 0 {
        assert(a + b =~= b);
    } else {
        assert((a + b)[0] == a[0]);
        assert((a + b).drop_first() =~= a.drop_first() + b);
        lemma_scan_fold_concat(scan_step(st, a[0]), a.drop_first(), b);
    }
}

/// `n` spaces.
pub open spec fn spaces(n: int) -> Seq<u8> {
    Seq::new(
        if n >= 0 {
            n as nat
        } else {
            0
        },
        |i: int| SPACE,
    )
}

} // verus!
