//! Single-pass prettifier: re-indents a JSON document, dropping the
//! whitespace it finds outside strings and re-synthesizing newlines and
//! indent runs around structural characters.  A side buffer of at most two
//! pending output units reorders the few cases where one input byte must
//! produce several output bytes.
use vstd::prelude::*;

use crate::minify::{
    lemma_minify_concat, lemma_minify_one, lemma_minify_spaces, minify_from, minify_keeps,
    minify_seq,
};
use crate::scan::{
    is_stream_ws, lemma_scan_fold_concat, scan_fold, scan_init, scan_step, spaces, stream_ws,
    ScanState, BACKSLASH, CLOSE_BRACE, CLOSE_BRACKET, COLON, COMMA, NEWLINE, OPEN_BRACE,
    OPEN_BRACKET, QUOTE, SPACE,
};

verus! {

/// The prettified form of `s[i..]` at indent width `w`, current indent
/// `ind`, scanned from state `st`.
pub open spec fn pretty_from(s: Seq<u8>, i: int, w: int, ind: int, st: ScanState) -> Seq<u8>
    decreases s.len() - i,
{
    if i < 0 || i >= s.len() {
        Seq::empty()
    } else {
        let c = s[i];
        if st.escape_next || c == QUOTE || st.in_string {
            seq![c] + pretty_from(s, i + 1, w, ind, scan_step(st, c))
        } else if c == OPEN_BRACE || c == OPEN_BRACKET {
            seq![c, NEWLINE] + spaces(ind + w) + pretty_from(s, i + 1, w, ind + w, st)
        } else if c == CLOSE_BRACE || c == CLOSE_BRACKET {
            let ind2 = if ind >= w {
                ind - w
            } else {
                ind
            };
            seq![NEWLINE] + spaces(ind2) + seq![c] + pretty_from(s, i + 1, w, ind2, st)
        } else if c == COMMA {
            seq![c, NEWLINE] + spaces(ind) + pretty_from(s, i + 1, w, ind, st)
        } else if c == COLON {
            seq![c, SPACE] + pretty_from(s, i + 1, w, ind, st)
        } else if is_stream_ws(c) {
            pretty_from(s, i + 1, w, ind, st)
        } else {
            seq![c] + pretty_from(s, i + 1, w, ind, st)
        }
    }
}

/// The prettified form of a whole document.
pub open spec fn pretty_seq(s: Seq<u8>, w: int) -> Seq<u8> {
    pretty_from(s, 0, w, 0, scan_init())
}

/// One pending output unit of the prettifier's side buffer.  A run of
/// indent spaces is stored compressed, as `ManySpaces` plus the iterator's
/// space counter.
#[derive(Clone, Copy, Debug)]
enum BufferChar {
    Space,
    ManySpaces,
    NewLine,
    EndObject,
    EndArray,
}

/// The bytes a buffered unit stands for, given the space counter `nsp`.
spec fn unit_seq(u: Option<BufferChar>, nsp: int) -> Seq<u8> {
    match u {
        Option::None => Seq::empty(),
        Option::Some(BufferChar::Space) => seq![SPACE],
        Option::Some(BufferChar::NewLine) => seq![NEWLINE],
        Option::Some(BufferChar::EndObject) => seq![CLOSE_BRACE],
        Option::Some(BufferChar::EndArray) => seq![CLOSE_BRACKET],
        Option::Some(BufferChar::ManySpaces) => spaces(nsp),
    }
}

spec fn is_many(u: Option<BufferChar>) -> bool {
    u matches Option::Some(BufferChar::ManySpaces)
}

impl BufferChar {
    /// The single byte a buffered unit stands for.
    fn to_byte(self) -> (r: u8)
        requires
            !(self is ManySpaces),
        ensures
            match self {
                BufferChar::Space => r == SPACE,
                BufferChar::NewLine => r == NEWLINE,
                BufferChar::EndObject => r == CLOSE_BRACE,
                BufferChar::EndArray => r == CLOSE_BRACKET,
                BufferChar::ManySpaces => true,
            },
    {
        match self {
            BufferChar::Space => SPACE,
            BufferChar::NewLine => NEWLINE,
            BufferChar::EndObject => CLOSE_BRACE,
            BufferChar::EndArray => CLOSE_BRACKET,
            BufferChar::ManySpaces => SPACE,
        }
    }
}

/// A streaming view of the prettifier: repeated `next` calls yield exactly
/// the bytes of `pretty_seq` of the input.
pub struct PrettifyIter<'a> {
    json: &'a [u8],
    pos: usize,
    buffer_0: Option<BufferChar>,
    buffer_1: Option<BufferChar>,
    space_buffer: usize,
    indent_width: usize,
    current_indent: usize,
    in_string: bool,
    escape_next: bool,
}

impl<'a> PrettifyIter<'a> {
    pub closed spec fn scan_state(&self) -> ScanState {
        ScanState { in_string: self.in_string, escape_next: self.escape_next }
    }

    /// The bytes still sitting in the side buffer.
    pub closed spec fn buffered(&self) -> Seq<u8> {
        unit_seq(self.buffer_0, self.space_buffer as int) + unit_seq(
            self.buffer_1,
            self.space_buffer as int,
        )
    }

    pub closed spec fn wf(&self) -> bool {
        &&& self.pos <= self.json@.len()
        &&& (self.buffer_1 is Some ==> self.buffer_0 is Some)
        &&& !(is_many(self.buffer_0) && is_many(self.buffer_1))
        &&& ((is_many(self.buffer_0) || is_many(self.buffer_1)) ==> self.space_buffer >= 1)
        &&& self.current_indent as int <= self.indent_width as int * self.pos as int
        &&& self.indent_width as int * self.json@.len() <= usize::MAX as int
    }

    /// The bytes the iterator has yet to yield.
    pub closed spec fn pending(&self) -> Seq<u8> {
        self.buffered() + pretty_from(
            self.json@,
            self.pos as int,
            self.indent_width as int,
            self.current_indent as int,
            self.scan_state(),
        )
    }

    pub fn new(json: &'a [u8], indent_width: usize) -> (r: Self)
        requires
            indent_width * json@.len() <= usize::MAX,
        ensures
            r.wf(),
            r.pending() == pretty_seq(json@, indent_width as int),
    {
        PrettifyIter {
            json,
            pos: 0,
            buffer_0: None,
            buffer_1: None,
            space_buffer: 0,
            indent_width,
            current_indent: 0,
            in_string: false,
            escape_next: false,
        }
    }

    fn buffer_push_back(&mut self, x: BufferChar)
        requires
            old(self).buffer_1 is None,
        ensures
            final(self).json == old(self).json,
            final(self).pos == old(self).pos,
            final(self).space_buffer == old(self).space_buffer,
            final(self).indent_width == old(self).indent_width,
            final(self).current_indent == old(self).current_indent,
            final(self).in_string == old(self).in_string,
            final(self).escape_next == old(self).escape_next,
            if old(self).buffer_0 is None {
                final(self).buffer_0 == Some(x) && final(self).buffer_1 is None
            } else {
                final(self).buffer_0 == old(self).buffer_0 && final(self).buffer_1 == Some(x)
            },
    {
        if self.buffer_0.is_none() {
            self.buffer_0 = Some(x);
        } else {
            self.buffer_1 = Some(x);
        }
    }

    fn buffer_push_front(&mut self, x: BufferChar)
        requires
            old(self).buffer_1 is None,
        ensures
            final(self).json == old(self).json,
            final(self).pos == old(self).pos,
            final(self).space_buffer == old(self).space_buffer,
            final(self).indent_width == old(self).indent_width,
            final(self).current_indent == old(self).current_indent,
            final(self).in_string == old(self).in_string,
            final(self).escape_next == old(self).escape_next,
            final(self).buffer_0 == Some(x),
            final(self).buffer_1 == old(self).buffer_0,
    {
        if self.buffer_0.is_none() {
            self.buffer_0 = Some(x);
        } else {
            self.buffer_1 = self.buffer_0;
            self.buffer_0 = Some(x);
        }
    }

    fn buffer_pop_front(&mut self) -> (r: Option<BufferChar>)
        ensures
            final(self).json == old(self).json,
            final(self).pos == old(self).pos,
            final(self).space_buffer == old(self).space_buffer,
            final(self).indent_width == old(self).indent_width,
            final(self).current_indent == old(self).current_indent,
            final(self).in_string == old(self).in_string,
            final(self).escape_next == old(self).escape_next,
            match old(self).buffer_0 {
                Some(x) => r == Some(x) && final(self).buffer_0 == old(self).buffer_1
                    && final(self).buffer_1 is None,
                None => r is None && final(self).buffer_0 is None
                    && final(self).buffer_1 == old(self).buffer_1,
            },
    {
        if let Some(x) = self.buffer_0 {
            self.buffer_0 = self.buffer_1;
            self.buffer_1 = None;
            Some(x)
        } else {
            None
        }
    }

    /// Queue the current indent's worth of spaces, compressed into one
    /// buffered unit.
    fn add_indent(&mut self)
        requires
            old(self).buffer_1 is None,
            !is_many(old(self).buffer_0),
        ensures
            final(self).json == old(self).json,
            final(self).pos == old(self).pos,
            final(self).indent_width == old(self).indent_width,
            final(self).current_indent == old(self).current_indent,
            final(self).in_string == old(self).in_string,
            final(self).escape_next == old(self).escape_next,
            if old(self).current_indent == 0 {
                final(self).buffer_0 == old(self).buffer_0
                    && final(self).buffer_1 == old(self).buffer_1
                    && final(self).space_buffer == old(self).space_buffer
            } else if old(self).buffer_0 is None {
                final(self).buffer_0 == Some(BufferChar::ManySpaces)
                    && final(self).buffer_1 is None
                    && final(self).space_buffer == old(self).current_indent
            } else {
                final(self).buffer_0 == old(self).buffer_0
                    && final(self).buffer_1 == Some(BufferChar::ManySpaces)
                    && final(self).space_buffer == old(self).current_indent
            },
    {
        if self.current_indent > 0 {
            self.buffer_push_back(BufferChar::ManySpaces);
            self.space_buffer = self.current_indent;
        }
    }

    /// Yields the next output byte, or `None` once input and buffer are
    /// both spent.
    pub fn next(&mut self) -> (r: Option<u8>)
        requires
            old(self).wf(),
        ensures
            final(self).wf(),
            match r {
                Some(c) => old(self).pending() == seq![c] + final(self).pending(),
                None => old(self).pending() == Seq::<u8>::empty() && final(self).pending()
                    == Seq::<u8>::empty(),
            },
    {
        let popped = self.buffer_pop_front();
        match popped {
            Some(BufferChar::ManySpaces) => {
                let ghost sb = old(self).space_buffer as int;
                let ghost b1 = old(self).buffer_1;
                self.space_buffer = self.space_buffer - 1;
                if self.space_buffer > 0 {
                    self.buffer_push_front(BufferChar::ManySpaces);
                }
                proof {
                    assert(!is_many(b1));
                    assert(unit_seq(b1, sb) == unit_seq(b1, sb - 1));
                    assert(spaces(sb) =~= seq![SPACE] + spaces(sb - 1));
                    assert(old(self).buffered() =~= seq![SPACE] + self.buffered());
                    assert(old(self).pending() =~= seq![SPACE] + self.pending());
                }
                return Some(SPACE);
            },
            Some(u) => {
                let b = u.to_byte();
                proof {
                    assert(old(self).buffered() =~= seq![b] + self.buffered());
                    assert(old(self).pending() =~= seq![b] + self.pending());
                }
                return Some(b);
            },
            None => {
            },
        }
        loop
            invariant
                self.wf(),
                self.buffer_0 is None,
                self.buffer_1 is None,
                self.pending() == old(self).pending(),
            decreases self.json@.len() - self.pos,
        {
            let ghost w = self.indent_width as int;
            let ghost len = self.json@.len() as int;
            if self.pos == self.json.len() {
                return None;
            }
            proof {
                assert(self.indent_width as int * (self.pos as int + 1) <= self.indent_width as int
                    * self.json@.len()) by (nonlinear_arith)
                    requires
                        self.pos as int + 1 <= self.json@.len(),
                        self.indent_width as int >= 0,
                ;
                assert(self.indent_width as int * self.pos as int <= self.indent_width as int * (
                self.pos as int + 1)) by (nonlinear_arith)
                    requires
                        self.indent_width as int >= 0,
                ;
                assert(self.indent_width as int * (self.pos as int + 1) == self.indent_width as int
                    * self.pos as int + self.indent_width as int) by (nonlinear_arith);
            }
            let c = self.json[self.pos];
            if self.escape_next {
                self.escape_next = false;
                self.pos = self.pos + 1;
                proof {
                    assert(old(self).pending() =~= seq![c] + self.pending());
                }
                return Some(c);
            }
            if c == QUOTE {
                self.in_string = !self.in_string;
                self.pos = self.pos + 1;
                proof {
                    assert(old(self).pending() =~= seq![c] + self.pending());
                }
                return Some(c);
            }
            if self.in_string {
                if c == BACKSLASH {
                    self.escape_next = true;
                }
                self.pos = self.pos + 1;
                proof {
                    assert(old(self).pending() =~= seq![c] + self.pending());
                }
                return Some(c);
            }
            if c == OPEN_BRACE || c == OPEN_BRACKET {
                self.current_indent = self.current_indent + self.indent_width;
                self.buffer_push_back(BufferChar::NewLine);
                self.add_indent();
                self.pos = self.pos + 1;
                proof {
                    assert(self.buffered() =~= seq![NEWLINE] + spaces(
                        self.current_indent as int,
                    ));
                    assert(old(self).pending() =~= seq![c] + self.pending());
                }
                return Some(c);
            }
            if c == CLOSE_BRACE || c == CLOSE_BRACKET {
                if self.current_indent >= self.indent_width {
                    self.current_indent = self.current_indent - self.indent_width;
                }
                self.add_indent();
                self.buffer_push_back(
                    if c == CLOSE_BRACE {
                        BufferChar::EndObject
                    } else {
                        BufferChar::EndArray
                    },
                );
                self.pos = self.pos + 1;
                proof {
                    assert(self.buffered() =~= spaces(self.current_indent as int) + seq![c]);
                    assert(old(self).pending() =~= seq![NEWLINE] + self.pending());
                }
                return Some(NEWLINE);
            }
            if c == COMMA {
                self.buffer_push_back(BufferChar::NewLine);
                self.add_indent();
                self.pos = self.pos + 1;
                proof {
                    assert(self.buffered() =~= seq![NEWLINE] + spaces(
                        self.current_indent as int,
                    ));
                    assert(old(self).pending() =~= seq![c] + self.pending());
                }
                return Some(c);
            }
            if c == COLON {
                self.buffer_push_back(BufferChar::Space);
                self.pos = self.pos + 1;
                proof {
                    assert(self.buffered() =~= seq![SPACE]);
                    assert(old(self).pending() =~= seq![c] + self.pending());
                }
                return Some(c);
            }
            if stream_ws(c) {
                self.pos = self.pos + 1;
            } else {
                self.pos = self.pos + 1;
                proof {
                    assert(old(self).pending() =~= seq![c] + self.pending());
                }
                return Some(c);
            }
        }
    }
}

/// Prettifies a JSON document at the given indent width.  The width may be
/// any value whose deepest possible indent still fits a machine word.
pub fn prettify(json: &[u8], indent_width: usize) -> (r: Vec<u8>)
    requires
        indent_width * json@.len() <= usize::MAX,
    ensures
        r@ == pretty_seq(json@, indent_width as int),
{
    let mut it = PrettifyIter::new(json, indent_width);
    let mut out: Vec<u8> = Vec::new();
    loop
        invariant
            it.wf(),
            out@ + it.pending() == pretty_seq(json@, indent_width as int),
        ensures
            out@ == pretty_seq(json@, indent_width as int),
        decreases it.pending().len(),
    {
        match it.next() {
            Some(c) => {
                proof {
                    assert((out@ + seq![c]) + it.pending() =~= out@ + (seq![c] + it.pending()));
                }
                out.push(c);
            },
            None => {
                proof {
                    assert(out@ + it.pending() =~= out@);
                }
                break ;
            },
        }
    }
    out
}

/// Minifying a structural byte followed by synthesized whitespace keeps
/// only the byte and leaves the scanner outside strings unchanged.
proof fn lemma_min_chunk_head(st: ScanState, c: u8, n: int)
    requires
        !st.in_string,
        !st.escape_next,
        c != QUOTE,
        c != BACKSLASH,
        !is_stream_ws(c),
    ensures
        minify_from(st, seq![c, NEWLINE] + spaces(n), 0) == seq![c],
        scan_fold(st, seq![c, NEWLINE] + spaces(n)) == st,
{
    let inner = seq![NEWLINE] + spaces(n);
    assert(seq![c, NEWLINE] + spaces(n) =~= seq![c] + inner);
    lemma_minify_concat(st, seq![c], inner);
    lemma_minify_one(st, c);
    assert(scan_step(st, c) == st);
    lemma_minify_concat(st, seq![NEWLINE], spaces(n));
    lemma_minify_one(st, NEWLINE);
    assert(scan_step(st, NEWLINE) == st);
    lemma_minify_spaces(st, n);
    assert(Seq::<u8>::empty() + Seq::<u8>::empty() =~= Seq::<u8>::empty());
    assert(seq![c] + Seq::<u8>::empty() =~= seq![c]);
    lemma_scan_fold_concat(st, seq![c], inner);
    lemma_scan_fold_concat(st, seq![NEWLINE], spaces(n));
}

/// Minifying synthesized whitespace followed by a closing bracket keeps
/// only the bracket.
proof fn lemma_min_chunk_close(st: ScanState, c: u8, n: int)
    requires
        !st.in_string,
        !st.escape_next,
        c != QUOTE,
        c != BACKSLASH,
        !is_stream_ws(c),
    ensures
        minify_from(st, (seq![NEWLINE] + spaces(n)) + seq![c], 0) == seq![c],
        scan_fold(st, (seq![NEWLINE] + spaces(n)) + seq![c]) == st,
{
    let inner = seq![NEWLINE] + spaces(n);
    lemma_minify_concat(st, inner, seq![c]);
    lemma_minify_concat(st, seq![NEWLINE], spaces(n));
    lemma_minify_one(st, NEWLINE);
    assert(scan_step(st, NEWLINE) == st);
    lemma_minify_spaces(st, n);
    lemma_scan_fold_concat(st, seq![NEWLINE], spaces(n));
    lemma_scan_fold_concat(st, inner, seq![c]);
    lemma_minify_one(st, c);
    assert(scan_step(st, c) == st);
    assert(Seq::<u8>::empty() + Seq::<u8>::empty() =~= Seq::<u8>::empty());
    assert((Seq::<u8>::empty() + Seq::<u8>::empty()) + seq![c] =~= seq![c]);
}

/// The prettifier only moves whitespace outside strings around: its output
/// minifies to exactly what the input minifies to.
proof fn lemma_pretty_min(s: Seq<u8>, i: int, w: int, ind: int, st: ScanState)
    requires
        0 <= i <= s.len(),
    ensures
        minify_from(st, pretty_from(s, i, w, ind, st), 0) == minify_from(st, s, i),
    decreases s.len() - i,
{
    if i < s.len() {
        let c = s[i];
        if st.escape_next || c == QUOTE || st.in_string {
            let st2 = scan_step(st, c);
            let rest = pretty_from(s, i + 1, w, ind, st2);
            lemma_pretty_min(s, i + 1, w, ind, st2);
            lemma_minify_concat(st, seq![c], rest);
            lemma_minify_one(st, c);
            assert(minify_keeps(st, c));
        } else if c == OPEN_BRACE || c == OPEN_BRACKET {
            let rest = pretty_from(s, i + 1, w, ind + w, st);
            lemma_pretty_min(s, i + 1, w, ind + w, st);
            let chunk = seq![c, NEWLINE] + spaces(ind + w);
            lemma_minify_concat(st, chunk, rest);
            lemma_min_chunk_head(st, c, ind + w);
            assert(pretty_from(s, i, w, ind, st) == chunk + rest);
            assert(scan_step(st, c) == st);
        } else if c == CLOSE_BRACE || c == CLOSE_BRACKET {
            let ind2 = if ind >= w {
                ind - w
            } else {
                ind
            };
            let rest = pretty_from(s, i + 1, w, ind2, st);
            lemma_pretty_min(s, i + 1, w, ind2, st);
            let chunk = (seq![NEWLINE] + spaces(ind2)) + seq![c];
            assert(seq![NEWLINE] + spaces(ind2) + seq![c] + rest =~= chunk + rest);
            lemma_minify_concat(st, chunk, rest);
            lemma_min_chunk_close(st, c, ind2);
            assert(scan_step(st, c) == st);
        } else if c == COMMA {
            let rest = pretty_from(s, i + 1, w, ind, st);
            lemma_pretty_min(s, i + 1, w, ind, st);
            let chunk = seq![c, NEWLINE] + spaces(ind);
            lemma_minify_concat(st, chunk, rest);
            lemma_min_chunk_head(st, c, ind);
            assert(scan_step(st, c) == st);
        } else if c == COLON {
            let rest = pretty_from(s, i + 1, w, ind, st);
            lemma_pretty_min(s, i + 1, w, ind, st);
            let chunk = seq![c, SPACE];
            assert(chunk =~= seq![c] + seq![SPACE]);
            lemma_minify_concat(st, chunk, rest);
            lemma_minify_concat(st, seq![c], seq![SPACE]);
            lemma_minify_one(st, c);
            lemma_minify_one(st, SPACE);
            assert(scan_step(st, c) == st && scan_step(st, SPACE) == st);
            lemma_scan_fold_concat(st, seq![c], seq![SPACE]);
            assert(seq![c] + Seq::<u8>::empty() =~= seq![c]);
        } else if is_stream_ws(c) {
            lemma_pretty_min(s, i + 1, w, ind, st);
            assert(scan_step(st, c) == st);
        } else {
            let rest = pretty_from(s, i + 1, w, ind, st);
            lemma_pretty_min(s, i + 1, w, ind, st);
            lemma_minify_concat(st, seq![c], rest);
            lemma_minify_one(st, c);
            assert(scan_step(st, c) == st);
        }
    }
}

/// Prettifying never changes what the document says: minifying the
/// prettified text gives back exactly the minified original, for every
/// indent width.
pub proof fn lemma_prettify_preserves_content(s: Seq<u8>, w: int)
    ensures
        minify_seq(pretty_seq(s, w)) == minify_seq(s),
{
    lemma_pretty_min(s, 0, w, 0, scan_init());
}

} // verus!
