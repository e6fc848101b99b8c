//! Single-pass minifier: drops every whitespace byte that lies outside a
//! string literal and passes every other byte through unchanged.
use vstd::prelude::*;

use crate::scan::{
    is_stream_ws, scan_fold, scan_init, scan_step, spaces, stream_ws, ScanState, BACKSLASH, QUOTE,
    SPACE,
};

verus! {

/// A byte survives minification when it is escaped, inside a string, or not
/// whitespace.
pub open spec fn minify_keeps(st: ScanState, c: u8) -> bool {
    st.escape_next || st.in_string || !is_stream_ws(c)
}

/// The minified form of `s[i..]`, scanned from state `st`.
pub open spec fn minify_from(st: ScanState, s: Seq<u8>, i: int) -> Seq<u8>
    decreases s.len() - i,
{
    if i < 0 || i >= s.len() {
        Seq::empty()
    } else {
        let c = s[i];
        let rest = minify_from(scan_step(st, c), s, i + 1);
        if minify_keeps(st, c) {
            seq![c] + rest
        } else {
            rest
        }
    }
}

/// The minified form of a whole document.
pub open spec fn minify_seq(s: Seq<u8>) -> Seq<u8> {
    minify_from(scan_init(), s, 0)
}

/// A streaming view of the minifier: repeated `next` calls yield exactly the
/// bytes of `minify_seq` of the input.
pub struct MinifyIter<'a> {
    json: &'a [u8],
    pos: usize,
    in_string: bool,
    escape_next: bool,
}

impl<'a> MinifyIter<'a> {
    /// The scanner state the iterator has reached.
    pub closed spec fn scan_state(&self) -> ScanState {
        ScanState { in_string: self.in_string, escape_next: self.escape_next }
    }

    pub closed spec fn wf(&self) -> bool {
        self.pos <= self.json@.len()
    }

    /// The bytes the iterator has yet to yield.
    pub closed spec fn pending(&self) -> Seq<u8> {
        minify_from(self.scan_state(), self.json@, self.pos as int)
    }

    pub fn new(json: &'a [u8]) -> (r: Self)
        ensures
            r.wf(),
            r.pending() == minify_seq(json@),
    {
        MinifyIter { json, pos: 0, in_string: false, escape_next: false }
    }

    /// Yields the next surviving byte, or `None` once the input is spent.
    pub fn next(&mut self) -> (r: Option<u8>)
        requires
            old(self).wf(),
        ensures
            final(self).wf(),
            match r {
                Some(c) => old(self).pending() == seq![c] + final(self).pending(),
                None => old(self).pending() == Seq::<u8>::empty() && final(self).pending()
                    == Seq::<u8>::empty(),
            },
    {
        loop
            invariant
                self.wf(),
                self.pending() == old(self).pending(),
            decreases self.json@.len() - self.pos,
        {
            if self.pos == self.json.len() {
                return None;
            }
            let c = self.json[self.pos];
            if self.escape_next {
                self.escape_next = false;
                self.pos = self.pos + 1;
                return Some(c);
            }
            if c == QUOTE {
                self.in_string = !self.in_string;
                self.pos = self.pos + 1;
                return Some(c);
            }
            if self.in_string && c == BACKSLASH {
                self.escape_next = true;
                self.pos = self.pos + 1;
                return Some(c);
            }
            if !self.in_string && stream_ws(c) {
                self.pos = self.pos + 1;
            } else {
                self.pos = self.pos + 1;
                return Some(c);
            }
        }
    }
}

/// Minifies a JSON document: every whitespace byte outside a string literal
/// is dropped, every other byte is kept verbatim and in order.
pub fn minify(json: &[u8]) -> (r: Vec<u8>)
    ensures
        r@ == minify_seq(json@),
{
    let mut it = MinifyIter::new(json);
    let mut out: Vec<u8> = Vec::new();
    loop
        invariant
            it.wf(),
            out@ + it.pending() == minify_seq(json@),
        ensures
            out@ == minify_seq(json@),
        decreases it.pending().len(),
    {
        match it.next() {
            Some(c) => {
                proof {
                    assert((out@ + seq![c]) + it.pending() =~= out@ + (seq![c] + it.pending()));
                }
                out.push(c);
            },
            None => {
                proof {
                    assert(out@ + it.pending() =~= out@);
                }
                break ;
            },
        }
    }
    out
}

/// Two scans that face the same suffix produce the same output.
proof fn lemma_minify_shift(st: ScanState, s: Seq<u8>, t: Seq<u8>, i: int, j: int)
    requires
        0 <= i <= s.len(),
        0 <= j <= t.len(),
        s.subrange(i, s.len() as int) == t.subrange(j, t.len() as int),
    ensures
        minify_from(st, s, i) == minify_from(st, t, j),
    decreases s.len() - i,
{
    assert(s.subrange(i, s.len() as int).len() == s.len() - i);
    assert(t.subrange(j, t.len() as int).len() == t.len() - j);
    if i < s.len() {
        assert(j < t.len());
        assert(s[i] == s.subrange(i, s.len() as int)[0]);
        assert(t[j] == t.subrange(j, t.len() as int)[0]);
        assert(s.subrange(i + 1, s.len() as int) =~= t.subrange(j + 1, t.len() as int)) by {
            assert forall|k: int| 0 <= k < s.len() - i - 1 implies #[trigger] s.subrange(
                i + 1,
                s.len() as int,
            )[k] == t.subrange(j + 1, t.len() as int)[k] by {
                assert(s.subrange(i + 1, s.len() as int)[k] == s[i + 1 + k]);
                assert(t.subrange(j + 1, t.len() as int)[k] == t[j + 1 + k]);
                assert(s.subrange(i, s.len() as int)[k + 1] == s[i + k + 1]);
                assert(t.subrange(j, t.len() as int)[k + 1] == t[j + k + 1]);
                assert(s.subrange(i, s.len() as int)[k + 1] == t.subrange(
                    j,
                    t.len() as int,
                )[k + 1]);
            }
        }
        lemma_minify_shift(scan_step(st, s[i]), s, t, i + 1, j + 1);
    }
}

/// Minifying a minifier's output changes nothing, whatever state both scans
/// start from.
proof fn lemma_minify_from_self(st: ScanState, s: Seq<u8>, i: int)
    requires
        0 <= i <= s.len(),
    ensures
        minify_from(st, minify_from(st, s, i), 0) == minify_from(st, s, i),
    decreases s.len() - i,
{
    if i < s.len() {
        let c = s[i];
        let st2 = scan_step(st, c);
        let rest = minify_from(st2, s, i + 1);
        lemma_minify_from_self(st2, s, i + 1);
        if minify_keeps(st, c) {
            let whole = seq![c] + rest;
            assert(whole.subrange(1, whole.len() as int) =~= rest.subrange(
                0,
                rest.len() as int,
            ));
            lemma_minify_shift(st2, whole, rest, 1, 0);
            assert(minify_from(st, whole, 0) == seq![c] + minify_from(st2, whole, 1));
        } else {
            assert(st2 == st);
        }
    }
}

/// The minifier is idempotent: minifying already-minified text is a no-op.
pub proof fn lemma_minify_idempotent(s: Seq<u8>)
    ensures
        minify_seq(minify_seq(s)) == minify_seq(s),
{
    lemma_minify_from_self(scan_init(), s, 0);
}

/// Minifying a concatenation minifies the parts, threading the scanner's
/// state through.
pub(crate) proof fn lemma_minify_concat(st: ScanState, a: Seq<u8>, b: Seq<u8>)
    ensures
        minify_from(st, a + b, 0) == minify_from(st, a, 0) + minify_from(scan_fold(st, a), b, 0),
    decreases a.len(),
{
    if a.len() == 0 {
        assert(a + b =~= b);
        assert(scan_fold(st, a) == st);
        assert(Seq::<u8>::empty() + minify_from(st, b, 0) =~= minify_from(st, b, 0));
    } else {
        let c = a[0];
        let st2 = scan_step(st, c);
        assert((a + b)[0] == c);
        assert((a + b).subrange(1, (a + b).len() as int) =~= (a.drop_first() + b).subrange(
            0,
            (a.drop_first() + b).len() as int,
        ));
        lemma_minify_shift(st2, a + b, a.drop_first() + b, 1, 0);
        lemma_minify_concat(st2, a.drop_first(), b);
        assert(a.subrange(1, a.len() as int) =~= a.drop_first().subrange(
            0,
            a.drop_first().len() as int,
        ));
        lemma_minify_shift(st2, a, a.drop_first(), 1, 0);
        assert(scan_fold(st, a) == scan_fold(st2, a.drop_first()));
        if minify_keeps(st, c) {
            assert(seq![c] + (minify_from(st2, a.drop_first(), 0) + minify_from(
                scan_fold(st2, a.drop_first()),
                b,
                0,
            )) =~= (seq![c] + minify_from(st2, a.drop_first(), 0)) + minify_from(
                scan_fold(st2, a.drop_first()),
                b,
                0,
            ));
        }
    }
}

/// A one-byte sequence minifies to itself or nothing, and folds one step.
pub(crate) proof fn lemma_minify_one(st: ScanState, c: u8)
    ensures
        minify_from(st, seq![c], 0) == (if minify_keeps(st, c) {
            seq![c]
        } else {
            Seq::<u8>::empty()
        }),
        scan_fold(st, seq![c]) == scan_step(st, c),
{
    assert(seq![c].len() == 1 && seq![c][0] == c);
    assert(seq![c].drop_first() =~= Seq::<u8>::empty());
    assert(minify_from(scan_step(st, c), seq![c], 1) == Seq::<u8>::empty());
    assert(scan_fold(scan_step(st, c), Seq::<u8>::empty()) == scan_step(st, c));
    assert(scan_fold(st, seq![c]) == scan_fold(scan_step(st, c), seq![c].drop_first()));
    if minify_keeps(st, c) {
        assert(seq![c] + Seq::<u8>::empty() =~= seq![c]);
    }
}

/// Outside a string, a run of spaces minifies to nothing and leaves the
/// scanner alone.
pub(crate) proof fn lemma_minify_spaces(st: ScanState, n: int)
    requires
        !st.in_string,
        !st.escape_next,
    ensures
        minify_from(st, spaces(n), 0) == Seq::<u8>::empty(),
        scan_fold(st, spaces(n)) == st,
    decreases n,
{
    if n > 0 {
        assert(spaces(n)[0] == SPACE);
        assert(spaces(n).drop_first() =~= spaces(n - 1));
        assert(scan_step(st, SPACE) == st);
        assert(spaces(n).subrange(1, spaces(n).len() as int) =~= spaces(n - 1).subrange(
            0,
            spaces(n - 1).len() as int,
        ));
        lemma_minify_shift(st, spaces(n), spaces(n - 1), 1, 0);
        lemma_minify_spaces(st, n - 1);
    } else {
        assert(spaces(n).len() == 0);
    }
}

} // verus!
