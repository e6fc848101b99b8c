//! The size parser: a recursive-descent walk over a JSON document that
//! builds a tree with one node per JSON value, charging every byte of the
//! input to exactly one node as whitespace, control (JSON punctuation) or
//! data (payload).  A node's counters aggregate its whole subtree, so the
//! root's three counters always sum to the length of the input.
use vstd::prelude::*;

use crate::scan::{
    is_json_ws, json_ws, lemma_string_body_end_bounds, spaces, string_body_end, BACKSLASH,
    CLOSE_BRACE, CLOSE_BRACKET, COLON, COMMA, HASH, OPEN_BRACE, OPEN_BRACKET, QUOTE, SPACE,
};

verus! {

/// Byte value of `-`.
pub const MINUS: u8 = 45;
/// Byte value of `+`.
pub const PLUS: u8 = 43;
/// Byte value of `.`.
pub const DOT: u8 = 46;
/// Byte value of `0`.
pub const DIGIT_ZERO: u8 = 48;
/// Byte value of `9`.
pub const DIGIT_NINE: u8 = 57;
/// Byte value of `e`.
pub const LOWER_E: u8 = 101;
/// Byte value of `E`.
pub const UPPER_E: u8 = 69;
/// Byte value of `t`.
pub const LOWER_T: u8 = 116;
/// Byte value of `r`.
pub const LOWER_R: u8 = 114;
/// Byte value of `u`.
pub const LOWER_U: u8 = 117;
/// Byte value of `f`.
pub const LOWER_F: u8 = 102;
/// Byte value of `a`.
pub const LOWER_A: u8 = 97;
/// Byte value of `l`.
pub const LOWER_L: u8 = 108;
/// Byte value of `s`.
pub const LOWER_S: u8 = 115;
/// Byte value of `n`.
pub const LOWER_N: u8 = 110;

/// The kind of JSON value a node stands for.
#[derive(Clone, Copy, Debug, PartialEq, Eq)]
pub enum JsonValueKind {
    Null,
    Boolean,
    Number,
    String,
    Object,
    Array,
}

/// A byte offset into the original text, remembered so that an object key
/// can be decoded lazily, at display time.
#[derive(Clone, Copy, Debug, PartialEq, Eq)]
pub struct Span {
    pub start: usize,
}

/// A node's position in its parent: the index always counts the node among
/// its siblings; for object members `key_ptr` points at the first byte after
/// the key's opening quote.
#[derive(Clone, Copy, Debug, PartialEq, Eq)]
pub struct JsonKey {
    pub index: usize,
    pub key_ptr: Option<Span>,
}

/// One node of the size tree.  The three counters aggregate the node's whole
/// subtree: `whitespace + control_chars + data_size` is the number of bytes
/// the node's value (with its surrounding whitespace) occupies in the input.
#[derive(Debug)]
pub struct JsonSize {
    /// Bytes that vanish when the document is minified.
    pub whitespace: usize,
    /// Quotes, braces, brackets, colons and commas.
    pub control_chars: usize,
    /// Payload bytes: string contents, numerals, keyword letters.
    pub data_size: usize,
    pub children: Vec<JsonSize>,
    pub value_kind: JsonValueKind,
    pub key: JsonKey,
}

/// Mathematical model of `JsonKey`.
pub ghost struct KeyModel {
    pub index: int,
    pub key_start: Option<int>,
}

/// Mathematical model of a size-tree node.
pub ghost struct SizeTree {
    pub whitespace: int,
    pub control: int,
    pub data: int,
    pub kind: JsonValueKind,
    pub key: KeyModel,
    pub children: Seq<SizeTree>,
}

/// Outcome of parsing one value slot: the node, the index of the byte the
/// parse stopped at (the end of input or an unconsumed `,`/`]`/`}`), and
/// whether the slot held only whitespace.
pub ghost struct ValueOut {
    pub node: SizeTree,
    pub end: int,
    pub empty: bool,
}

/// Outcome of parsing the items of a container: the children, their summed
/// counters (plus the separators consumed between them), and the index of
/// the closing bracket or brace, which is not yet consumed.
pub ghost struct ItemsOut {
    pub children: Seq<SizeTree>,
    pub whitespace: int,
    pub control: int,
    pub data: int,
    pub end: int,
}

pub open spec fn default_key() -> KeyModel {
    KeyModel { index: 0, key_start: None }
}

/// A node covering nothing but `w` whitespace bytes.
pub open spec fn ws_node(w: int) -> SizeTree {
    SizeTree {
        whitespace: w,
        control: 0,
        data: 0,
        kind: JsonValueKind::Null,
        key: default_key(),
        children: Seq::empty(),
    }
}

pub open spec fn with_key(n: SizeTree, idx: int, ks: Option<int>) -> SizeTree {
    SizeTree {
        whitespace: n.whitespace,
        control: n.control,
        data: n.data,
        kind: n.kind,
        key: KeyModel { index: idx, key_start: ks },
        children: n.children,
    }
}

/// A node's aggregate size in bytes.
pub open spec fn total_of(t: SizeTree) -> int {
    t.whitespace + t.control + t.data
}

/// Every child is itself well formed and no child outweighs `bound`.
pub open spec fn children_wf(cs: Seq<SizeTree>, bound: int) -> bool
    decreases cs,
{
    cs.len() == 0 || (total_of(cs[0]) <= bound && tree_wf(cs[0]) && children_wf(
        cs.drop_first(),
        bound,
    ))
}

/// Counters are nonnegative and children nest within their parent's total,
/// recursively.
pub open spec fn tree_wf(t: SizeTree) -> bool
    decreases t,
{
    t.whitespace >= 0 && t.control >= 0 && t.data >= 0 && children_wf(t.children, total_of(t))
}

/// Length of the whitespace run starting at `i`.
pub open spec fn ws_run(s: Seq<u8>, i: int) -> nat
    decreases s.len() - i,
{
    if 0 <= i < s.len() && is_json_ws(s[i]) {
        1 + ws_run(s, i + 1)
    } else {
        0
    }
}

pub open spec fn is_digit(c: u8) -> bool {
    DIGIT_ZERO <= c <= DIGIT_NINE
}

/// Length of the digit run starting at `i`.
pub open spec fn digit_run(s: Seq<u8>, i: int) -> nat
    decreases s.len() - i,
{
    if 0 <= i < s.len() && is_digit(s[i]) {
        1 + digit_run(s, i + 1)
    } else {
        0
    }
}

/// Length of the keyword (`true`, `false` or `null`) starting at `p`.
pub open spec fn spec_keyword_len(s: Seq<u8>, p: int) -> Option<int> {
    if s[p] == LOWER_T {
        if p + 4 <= s.len() && s[p + 1] == LOWER_R && s[p + 2] == LOWER_U && s[p + 3]
            == LOWER_E {
            Some(4)
        } else {
            None
        }
    } else if s[p] == LOWER_F {
        if p + 5 <= s.len() && s[p + 1] == LOWER_A && s[p + 2] == LOWER_L && s[p + 3] == LOWER_S
            && s[p + 4] == LOWER_E {
            Some(5)
        } else {
            None
        }
    } else if s[p] == LOWER_N {
        if p + 4 <= s.len() && s[p + 1] == LOWER_U && s[p + 2] == LOWER_L && s[p + 3]
            == LOWER_L {
            Some(4)
        } else {
            None
        }
    } else {
        None
    }
}

/// Length of the number starting at `p`: optional minus, digits, optional
/// fraction, optional exponent, scanned greedily.  `None` only when the
/// input ends right after the exponent marker, where a sign byte is still
/// awaited.
pub open spec fn spec_number_len(s: Seq<u8>, p: int) -> Option<int> {
    let q0 = if p < s.len() && s[p] == MINUS {
        p + 1
    } else {
        p
    };
    let q1 = q0 + digit_run(s, q0);
    let q2 = if q1 < s.len() && s[q1] == DOT {
        q1 + 1 + digit_run(s, q1 + 1)
    } else {
        q1
    };
    if q2 < s.len() && (s[q2] == LOWER_E || s[q2] == UPPER_E) {
        if q2 + 1 >= s.len() {
            None
        } else {
            let q3 = if s[q2 + 1] == PLUS || s[q2 + 1] == MINUS {
                q2 + 2
            } else {
                q2 + 1
            };
            Some(q3 + digit_run(s, q3) - p)
        }
    } else {
        Some(q2 - p)
    }
}

/// Index just past the string starting at `p` (where `s[p]` is the opening
/// quote); `None` when no unescaped closing quote follows.
pub open spec fn spec_string_end(s: Seq<u8>, p: int) -> Option<int> {
    match string_body_end(s, p + 1, false) {
        Some(q) => Some(q + 1),
        None => None,
    }
}

/// A position where a value slot may stop: the end of input or an
/// unconsumed `,`, `]` or `}`.
pub open spec fn valid_stop(s: Seq<u8>, e: int) -> bool {
    e == s.len() || (0 <= e < s.len() && (s[e] == COMMA || s[e] == CLOSE_BRACKET || s[e]
        == CLOSE_BRACE))
}

/// Attach trailing whitespace to a leaf node and require the slot to stop
/// at a delimiter or the end of input.
pub open spec fn finish_simple(
    s: Seq<u8>,
    q: int,
    w1: int,
    ctrl: int,
    data: int,
    kind: JsonValueKind,
) -> Option<ValueOut> {
    let w2 = ws_run(s, q);
    let e = q + w2;
    if valid_stop(s, e) {
        Some(
            ValueOut {
                node: SizeTree {
                    whitespace: w1 + w2,
                    control: ctrl,
                    data: data,
                    kind: kind,
                    key: default_key(),
                    children: Seq::empty(),
                },
                end: e,
                empty: false,
            },
        )
    } else {
        None
    }
}

/// Attach trailing whitespace to a finished container node.
pub open spec fn finish_container(s: Seq<u8>, q: int, n: SizeTree) -> Option<ValueOut> {
    let w2 = ws_run(s, q);
    let e = q + w2;
    if valid_stop(s, e) {
        Some(
            ValueOut {
                node: SizeTree {
                    whitespace: n.whitespace + w2,
                    control: n.control,
                    data: n.data,
                    kind: n.kind,
                    key: n.key,
                    children: n.children,
                },
                end: e,
                empty: false,
            },
        )
    } else {
        None
    }
}

/// Parse one value slot starting at `pos`: leading whitespace, then at most
/// one value, then trailing whitespace, stopping at a delimiter or the end
/// of input.  A slot holding only whitespace is reported `empty`.
pub open spec fn spec_parse_value(s: Seq<u8>, pos: int) -> Option<ValueOut>
    decreases s.len() - pos, 0int,
{
    let w1 = ws_run(s, pos);
    let p = pos + w1;
    if p >= s.len() {
        Some(ValueOut { node: ws_node(w1 as int), end: p, empty: true })
    } else {
        let c = s[p];
        if c == COMMA || c == CLOSE_BRACKET || c == CLOSE_BRACE {
            Some(ValueOut { node: ws_node(w1 as int), end: p, empty: true })
        } else if c == LOWER_T || c == LOWER_F || c == LOWER_N {
            match spec_keyword_len(s, p) {
                Some(klen) => finish_simple(
                    s,
                    p + klen,
                    w1 as int,
                    0,
                    klen,
                    if c == LOWER_N {
                        JsonValueKind::Null
                    } else {
                        JsonValueKind::Boolean
                    },
                ),
                None => None,
            }
        } else if c == QUOTE {
            match spec_string_end(s, p) {
                Some(q) => finish_simple(s, q, w1 as int, 2, q - p - 2, JsonValueKind::String),
                None => None,
            }
        } else if c == MINUS || is_digit(c) {
            match spec_number_len(s, p) {
                Some(nlen) => finish_simple(s, p + nlen, w1 as int, 0, nlen, JsonValueKind::Number),
                None => None,
            }
        } else if c == OPEN_BRACKET {
            match spec_array_items(s, p + 1, 0) {
                Some(it) => finish_container(
                    s,
                    it.end + 1,
                    SizeTree {
                        whitespace: w1 + it.whitespace,
                        control: 2 + it.control,
                        data: it.data,
                        kind: JsonValueKind::Array,
                        key: default_key(),
                        children: it.children,
                    },
                ),
                None => None,
            }
        } else if c == OPEN_BRACE {
            match spec_object_members(s, p + 1, 0) {
                Some(it) => finish_container(
                    s,
                    it.end + 1,
                    SizeTree {
                        whitespace: w1 + it.whitespace,
                        control: 2 + it.control,
                        data: it.data,
                        kind: JsonValueKind::Object,
                        key: default_key(),
                        children: it.children,
                    },
                ),
                None => None,
            }
        } else {
            None
        }
    }
}

/// Parse array items from `q` (just past `[` or a comma) up to the closing
/// `]`, which is left unconsumed.  A whitespace-only slot adds no child;
/// each consumed comma counts one control byte.
pub open spec fn spec_array_items(s: Seq<u8>, q: int, idx: int) -> Option<ItemsOut>
    decreases s.len() - q, 1int,
{
    match spec_parse_value(s, q) {
        None => None,
        Some(v) => {
            // The bounds on `v.end` hold for every parse (`lemma_value_props`);
            // the conditional only makes the recursion's termination measure
            // evident to the verifier.
            let e = if q <= v.end && v.end <= s.len() {
                v.end
            } else {
                q
            };
            let kids = if v.empty {
                Seq::<SizeTree>::empty()
            } else {
                seq![with_key(v.node, idx, None)]
            };
            let dn: int = if v.empty {
                0
            } else {
                1
            };
            if e < s.len() && s[e] == CLOSE_BRACKET {
                Some(
                    ItemsOut {
                        children: kids,
                        whitespace: v.node.whitespace,
                        control: v.node.control,
                        data: v.node.data,
                        end: e,
                    },
                )
            } else if e < s.len() && s[e] == COMMA {
                match spec_array_items(s, e + 1, idx + dn) {
                    None => None,
                    Some(it) => Some(
                        ItemsOut {
                            children: kids + it.children,
                            whitespace: v.node.whitespace + it.whitespace,
                            control: v.node.control + 1 + it.control,
                            data: v.node.data + it.data,
                            end: it.end,
                        },
                    ),
                }
            } else {
                None
            }
        },
    }
}

/// Parse object members from `q` (just past `{` or a comma) up to the
/// closing `}`, which is left unconsumed.  Each member is a quoted key, a
/// colon and a non-empty value slot; key quotes, the colon and each consumed
/// comma count as control bytes of the object, key contents as its data.
pub open spec fn spec_object_members(s: Seq<u8>, q: int, idx: int) -> Option<ItemsOut>
    decreases s.len() - q, 1int,
{
    let kw = ws_run(s, q);
    let k = q + kw;
    if k >= s.len() {
        None
    } else if s[k] == CLOSE_BRACE {
        Some(
            ItemsOut { children: Seq::empty(), whitespace: kw as int, control: 0, data: 0, end: k },
        )
    } else if s[k] != QUOTE {
        None
    } else {
        match spec_string_end(s, k) {
            None => None,
            Some(kend0) => {
                // In range for every parse (`lemma_string_body_end_bounds`);
                // the conditional only keeps the termination measure evident.
                let kend = if k + 2 <= kend0 && kend0 <= s.len() {
                    kend0
                } else {
                    k + 2
                };
                let w2 = ws_run(s, kend);
                let c2 = kend + w2;
                if c2 >= s.len() || s[c2] != COLON {
                    None
                } else {
                    match spec_parse_value(s, c2 + 1) {
                        None => None,
                        Some(v) => {
                            if v.empty {
                                None
                            } else {
                                let e = if c2 + 1 <= v.end && v.end <= s.len() {
                                    v.end
                                } else {
                                    c2 + 1
                                };
                                let child = with_key(v.node, idx, Some(k + 1));
                                let mw = kw + w2 + v.node.whitespace;
                                let mc = 3 + v.node.control;
                                let md = (kend - k - 2) + v.node.data;
                                if e < s.len() && s[e] == CLOSE_BRACE {
                                    Some(
                                        ItemsOut {
                                            children: seq![child],
                                            whitespace: mw,
                                            control: mc,
                                            data: md,
                                            end: e,
                                        },
                                    )
                                } else if e < s.len() && s[e] == COMMA {
                                    match spec_object_members(s, e + 1, idx + 1) {
                                        None => None,
                                        Some(it) => Some(
                                            ItemsOut {
                                                children: seq![child] + it.children,
                                                whitespace: mw + it.whitespace,
                                                control: mc + 1 + it.control,
                                                data: md + it.data,
                                                end: it.end,
                                            },
                                        ),
                                    }
                                } else {
                                    None
                                }
                            }
                        },
                    }
                }
            },
        }
    }
}

/// Parse a whole document: one value slot that must consume every byte.
pub open spec fn spec_parse_text(s: Seq<u8>) -> Option<SizeTree> {
    match spec_parse_value(s, 0) {
        None => None,
        Some(v) => if v.end == s.len() {
            Some(v.node)
        } else {
            None
        },
    }
}

pub proof fn lemma_ws_run_bounds(s: Seq<u8>, i: int)
    requires
        0 <= i <= s.len(),
    ensures
        i + ws_run(s, i) <= s.len(),
    decreases s.len() - i,
{
    if i < s.len() && is_json_ws(s[i]) {
        lemma_ws_run_bounds(s, i + 1);
    }
}

pub proof fn lemma_digit_run_bounds(s: Seq<u8>, i: int)
    requires
        0 <= i <= s.len(),
    ensures
        i + digit_run(s, i) <= s.len(),
    decreases s.len() - i,
{
    if i < s.len() && is_digit(s[i]) {
        lemma_digit_run_bounds(s, i + 1);
    }
}

pub proof fn lemma_number_len_bounds(s: Seq<u8>, p: int)
    requires
        0 <= p < s.len(),
    ensures
        spec_number_len(s, p) matches Some(nlen) ==> 0 <= nlen && p + nlen <= s.len(),
{
    let q0 = if s[p] == MINUS {
        p + 1
    } else {
        p
    };
    lemma_digit_run_bounds(s, q0);
    let q1 = q0 + digit_run(s, q0);
    if q1 < s.len() && s[q1] == DOT {
        lemma_digit_run_bounds(s, q1 + 1);
    }
    let q2 = if q1 < s.len() && s[q1] == DOT {
        q1 + 1 + digit_run(s, q1 + 1)
    } else {
        q1
    };
    if q2 < s.len() && (s[q2] == LOWER_E || s[q2] == UPPER_E) && q2 + 1 < s.len() {
        let q3 = if s[q2 + 1] == PLUS || s[q2 + 1] == MINUS {
            q2 + 2
        } else {
            q2 + 1
        };
        lemma_digit_run_bounds(s, q3);
    }
}

pub proof fn lemma_string_end_bounds(s: Seq<u8>, p: int)
    requires
        0 <= p,
    ensures
        spec_string_end(s, p) matches Some(q) ==> p + 2 <= q <= s.len() && s[q - 1] == QUOTE,
{
    lemma_string_body_end_bounds(s, p + 1, false);
}

proof fn lemma_children_wf_mono(cs: Seq<SizeTree>, b1: int, b2: int)
    requires
        children_wf(cs, b1),
        b1 <= b2,
    ensures
        children_wf(cs, b2),
    decreases cs,
{
    if cs.len() > 0 {
        lemma_children_wf_mono(cs.drop_first(), b1, b2);
    }
}

proof fn lemma_children_wf_concat(a: Seq<SizeTree>, b: Seq<SizeTree>, bound: int)
    requires
        children_wf(a, bound),
        children_wf(b, bound),
    ensures
        children_wf(a + b, bound),
    decreases a,
{
    if a.len() == 0 {
        assert(a + b =~= b);
    } else {
        assert((a + b)[0] == a[0]);
        assert((a + b).drop_first() =~= a.drop_first() + b);
        lemma_children_wf_concat(a.drop_first(), b, bound);
    }
}

/// Each child of a well-formed sequence is well formed and within bound.
pub proof fn lemma_children_wf_index(cs: Seq<SizeTree>, bound: int, i: int)
    requires
        children_wf(cs, bound),
        0 <= i < cs.len(),
    ensures
        tree_wf(cs[i]),
        total_of(cs[i]) <= bound,
    decreases i,
{
    if i > 0 {
        lemma_children_wf_index(cs.drop_first(), bound, i - 1);
    }
}

/// Every successful value parse stops at a valid position, covers exactly
/// the bytes it consumed with its three counters, and yields a well-formed
/// node.
pub proof fn lemma_value_props(s: Seq<u8>, pos: int)
    requires
        0 <= pos <= s.len(),
    ensures
        spec_parse_value(s, pos) matches Some(v) ==> {
            &&& pos <= v.end <= s.len()
            &&& valid_stop(s, v.end)
            &&& v.node.whitespace >= 0 && v.node.control >= 0 && v.node.data >= 0
            &&& total_of(v.node) == v.end - pos
            &&& tree_wf(v.node)
        },
    decreases s.len() - pos, 0int,
{
    lemma_ws_run_bounds(s, pos);
    let w1 = ws_run(s, pos);
    let p = pos + w1;
    if p < s.len() {
        let c = s[p];
        if c == COMMA || c == CLOSE_BRACKET || c == CLOSE_BRACE {
        } else if c == LOWER_T || c == LOWER_F || c == LOWER_N {
            if let Some(klen) = spec_keyword_len(s, p) {
                lemma_ws_run_bounds(s, p + klen);
            }
        } else if c == QUOTE {
            lemma_string_end_bounds(s, p);
            if let Some(q) = spec_string_end(s, p) {
                lemma_ws_run_bounds(s, q);
            }
        } else if c == MINUS || is_digit(c) {
            lemma_number_len_bounds(s, p);
            if let Some(nlen) = spec_number_len(s, p) {
                lemma_ws_run_bounds(s, p + nlen);
            }
        } else if c == OPEN_BRACKET {
            lemma_items_props(s, p + 1, 0);
            if let Some(it) = spec_array_items(s, p + 1, 0) {
                lemma_ws_run_bounds(s, it.end + 1);
                let n = SizeTree {
                    whitespace: w1 + it.whitespace,
                    control: 2 + it.control,
                    data: it.data,
                    kind: JsonValueKind::Array,
                    key: default_key(),
                    children: it.children,
                };
                lemma_children_wf_mono(
                    it.children,
                    it.whitespace + it.control + it.data,
                    total_of(n),
                );
                let w2 = ws_run(s, it.end + 1);
                lemma_children_wf_mono(it.children, total_of(n), total_of(n) + w2);
            }
        } else if c == OPEN_BRACE {
            lemma_members_props(s, p + 1, 0);
            if let Some(it) = spec_object_members(s, p + 1, 0) {
                lemma_ws_run_bounds(s, it.end + 1);
                let n = SizeTree {
                    whitespace: w1 + it.whitespace,
                    control: 2 + it.control,
                    data: it.data,
                    kind: JsonValueKind::Object,
                    key: default_key(),
                    children: it.children,
                };
                lemma_children_wf_mono(
                    it.children,
                    it.whitespace + it.control + it.data,
                    total_of(n),
                );
                let w2 = ws_run(s, it.end + 1);
                lemma_children_wf_mono(it.children, total_of(n), total_of(n) + w2);
            }
        }
    }
}

/// Companion of `lemma_value_props` for array item lists.
pub proof fn lemma_items_props(s: Seq<u8>, q: int, idx: int)
    requires
        0 <= q <= s.len(),
    ensures
        spec_array_items(s, q, idx) matches Some(it) ==> {
            &&& q <= it.end < s.len()
            &&& s[it.end] == CLOSE_BRACKET
            &&& it.whitespace >= 0 && it.control >= 0 && it.data >= 0
            &&& it.whitespace + it.control + it.data == it.end - q
            &&& children_wf(it.children, it.whitespace + it.control + it.data)
        },
    decreases s.len() - q, 1int,
{
    lemma_value_props(s, q);
    if let Some(v) = spec_parse_value(s, q) {
        let e = v.end;
        let kids = if v.empty {
            Seq::<SizeTree>::empty()
        } else {
            seq![with_key(v.node, idx, None)]
        };
        if !v.empty {
            let ck = with_key(v.node, idx, None);
            assert(total_of(ck) == total_of(v.node));
            assert(children_wf(ck.children, total_of(ck)));
            assert(tree_wf(ck));
            assert(kids.len() == 1 && kids[0] == ck);
            assert(kids.drop_first() =~= Seq::<SizeTree>::empty());
            assert(children_wf(Seq::<SizeTree>::empty(), total_of(v.node)));
            assert(children_wf(kids, total_of(v.node)));
        }
        if e < s.len() && s[e] == CLOSE_BRACKET {
        } else if e < s.len() && s[e] == COMMA {
            let dn: int = if v.empty {
                0
            } else {
                1
            };
            lemma_items_props(s, e + 1, idx + dn);
            if let Some(it) = spec_array_items(s, e + 1, idx + dn) {
                let bound = v.node.whitespace + it.whitespace + v.node.control + 1 + it.control
                    + v.node.data + it.data;
                lemma_children_wf_mono(kids, total_of(v.node), bound);
                lemma_children_wf_mono(it.children, it.whitespace + it.control + it.data, bound);
                lemma_children_wf_concat(kids, it.children, bound);
            }
        }
    }
}

/// Companion of `lemma_value_props` for object member lists.
pub proof fn lemma_members_props(s: Seq<u8>, q: int, idx: int)
    requires
        0 <= q <= s.len(),
    ensures
        spec_object_members(s, q, idx) matches Some(it) ==> {
            &&& q <= it.end < s.len()
            &&& s[it.end] == CLOSE_BRACE
            &&& it.whitespace >= 0 && it.control >= 0 && it.data >= 0
            &&& it.whitespace + it.control + it.data == it.end - q
            &&& children_wf(it.children, it.whitespace + it.control + it.data)
        },
    decreases s.len() - q, 1int,
{
    lemma_ws_run_bounds(s, q);
    let kw = ws_run(s, q);
    let k = q + kw;
    if k < s.len() && s[k] != CLOSE_BRACE && s[k] == QUOTE {
        lemma_string_end_bounds(s, k);
        if let Some(kend) = spec_string_end(s, k) {
            lemma_ws_run_bounds(s, kend);
            let w2 = ws_run(s, kend);
            let c2 = kend + w2;
            if c2 < s.len() && s[c2] == COLON {
                lemma_value_props(s, c2 + 1);
                if let Some(v) = spec_parse_value(s, c2 + 1) {
                    if !v.empty {
                        let e = v.end;
                        let child = with_key(v.node, idx, Some(k + 1));
                        let mw = kw + w2 + v.node.whitespace;
                        let mc = 3 + v.node.control;
                        let md = (kend - k - 2) + v.node.data;
                        assert(total_of(child) == total_of(v.node));
                        assert(children_wf(child.children, total_of(child)));
                        assert(tree_wf(child));
                        assert(seq![child].len() == 1 && seq![child][0] == child);
                        assert(seq![child].drop_first() =~= Seq::<SizeTree>::empty());
                        assert(children_wf(Seq::<SizeTree>::empty(), total_of(v.node)));
                        assert(children_wf(seq![child], total_of(v.node)));
                        if e < s.len() && s[e] == CLOSE_BRACE {
                            lemma_children_wf_mono(seq![child], total_of(v.node), mw + mc + md);
                        } else if e < s.len() && s[e] == COMMA {
                            lemma_members_props(s, e + 1, idx + 1);
                            if let Some(it) = spec_object_members(s, e + 1, idx + 1) {
                                let bound = mw + it.whitespace + mc + 1 + it.control + md
                                    + it.data;
                                lemma_children_wf_mono(seq![child], total_of(v.node), bound);
                                lemma_children_wf_mono(
                                    it.children,
                                    it.whitespace + it.control + it.data,
                                    bound,
                                );
                                lemma_children_wf_concat(seq![child], it.children, bound);
                            }
                        }
                    }
                }
            }
        }
    }
}

/// Byte conservation: whenever a document parses, the root's three counters
/// sum to exactly the document's length, and the tree is well formed.
pub proof fn lemma_byte_conservation(s: Seq<u8>)
    ensures
        spec_parse_text(s) matches Some(t) ==> total_of(t) == s.len() && tree_wf(t),
{
    lemma_value_props(s, 0);
}

pub open spec fn key_of(k: JsonKey) -> KeyModel {
    KeyModel {
        index: k.index as int,
        key_start: match k.key_ptr {
            Some(sp) => Some(sp.start as int),
            None => None,
        },
    }
}

/// The model of an executable node.
pub open spec fn tree_of(js: JsonSize) -> SizeTree
    decreases js,
{
    SizeTree {
        whitespace: js.whitespace as int,
        control: js.control_chars as int,
        data: js.data_size as int,
        kind: js.value_kind,
        key: key_of(js.key),
        children: trees_of(js.children@),
    }
}

pub open spec fn trees_of(cs: Seq<JsonSize>) -> Seq<SizeTree>
    decreases cs,
{
    if cs.len() == 0 {
        Seq::empty()
    } else {
        seq![tree_of(cs[0])] + trees_of(cs.drop_first())
    }
}

proof fn lemma_trees_of_push(cs: Seq<JsonSize>, x: JsonSize)
    ensures
        trees_of(cs.push(x)) == trees_of(cs) + seq![tree_of(x)],
    decreases cs.len(),
{
    if cs.len() == 0 {
        assert(cs.push(x) =~= seq![x]);
        assert(seq![x].drop_first() =~= Seq::<JsonSize>::empty());
        assert(seq![x][0] == x);
        assert(trees_of(Seq::<JsonSize>::empty()) == Seq::<SizeTree>::empty());
        assert(trees_of(seq![x]) == seq![tree_of(x)] + Seq::<SizeTree>::empty());
        assert(seq![tree_of(x)] + Seq::<SizeTree>::empty() =~= seq![tree_of(x)]);
        assert(trees_of(cs) + seq![tree_of(x)] =~= seq![tree_of(x)]);
    } else {
        assert(cs.push(x)[0] == cs[0]);
        assert(cs.push(x).drop_first() =~= cs.drop_first().push(x));
        lemma_trees_of_push(cs.drop_first(), x);
        assert(seq![tree_of(cs[0])] + (trees_of(cs.drop_first()) + seq![tree_of(x)]) =~= (seq![
            tree_of(cs[0]),
        ] + trees_of(cs.drop_first())) + seq![tree_of(x)]);
    }
}

/// The executable result matches the model's outcome for one value slot.
pub open spec fn value_match(r: Option<(JsonSize, usize, bool)>, o: Option<ValueOut>) -> bool {
    match (r, o) {
        (Option::None, Option::None) => true,
        (Option::Some(t), Option::Some(v)) => v == ValueOut {
            node: tree_of(t.0),
            end: t.1 as int,
            empty: t.2,
        },
        _ => false,
    }
}

/// The executable result matches the model's outcome for a container body.
pub open spec fn items_match(
    r: Option<(Vec<JsonSize>, usize, usize, usize, usize)>,
    o: Option<ItemsOut>,
) -> bool {
    match (r, o) {
        (Option::None, Option::None) => true,
        (Option::Some(t), Option::Some(it)) => it == ItemsOut {
            children: trees_of(t.0@),
            whitespace: t.1 as int,
            control: t.2 as int,
            data: t.3 as int,
            end: t.4 as int,
        },
        _ => false,
    }
}

/// Advance past the whitespace run starting at `i`.
fn skip_whitespace(json: &[u8], i: usize) -> (r: usize)
    requires
        i <= json@.len(),
    ensures
        i <= r <= json@.len(),
        r - i == ws_run(json@, i as int),
{
    let mut j = i;
    loop
        invariant
            i <= j <= json@.len(),
            ws_run(json@, i as int) == (j - i) + ws_run(json@, j as int),
        decreases json@.len() - j,
    {
        if j == json.len() {
            return j;
        }
        let c = json[j];
        if json_ws(c) {
            j = j + 1;
        } else {
            return j;
        }
    }
}

/// Advance past the digit run starting at `i`.
fn skip_digits(json: &[u8], i: usize) -> (r: usize)
    requires
        i <= json@.len(),
    ensures
        i <= r <= json@.len(),
        r - i == digit_run(json@, i as int),
{
    let mut j = i;
    loop
        invariant
            i <= j <= json@.len(),
            digit_run(json@, i as int) == (j - i) + digit_run(json@, j as int),
        decreases json@.len() - j,
    {
        if j == json.len() {
            return j;
        }
        let c = json[j];
        if DIGIT_ZERO <= c && c <= DIGIT_NINE {
            j = j + 1;
        } else {
            return j;
        }
    }
}

/// Match `true`, `false` or `null` byte by byte against the input.
fn parse_any_keyword(json: &[u8], p: usize) -> (r: Option<usize>)
    requires
        p < json@.len(),
    ensures
        r.is_some() == spec_keyword_len(json@, p as int).is_some(),
        r matches Some(klen) ==> spec_keyword_len(json@, p as int) == Some(klen as int) && p + klen
            <= json@.len(),
{
    let c = json[p];
    let n = json.len();
    if c == LOWER_T {
        if n - p >= 4 && json[p + 1] == LOWER_R && json[p + 2] == LOWER_U && json[p + 3]
            == LOWER_E {
            Some(4)
        } else {
            None
        }
    } else if c == LOWER_F {
        if n - p >= 5 && json[p + 1] == LOWER_A && json[p + 2] == LOWER_L && json[p + 3] == LOWER_S
            && json[p + 4] == LOWER_E {
            Some(5)
        } else {
            None
        }
    } else if c == LOWER_N {
        if n - p >= 4 && json[p + 1] == LOWER_U && json[p + 2] == LOWER_L && json[p + 3]
            == LOWER_L {
            Some(4)
        } else {
            None
        }
    } else {
        None
    }
}

/// Greedy scan of a number: optional minus, digits, optional fraction,
/// optional exponent.  Returns the consumed length.
fn parse_number(json: &[u8], p: usize) -> (r: Option<usize>)
    requires
        p < json@.len(),
    ensures
        r.is_some() == spec_number_len(json@, p as int).is_some(),
        r matches Some(nlen) ==> spec_number_len(json@, p as int) == Some(nlen as int) && p + nlen
            <= json@.len(),
{
    let mut q = p;
    if json[q] == MINUS {
        q = q + 1;
    }
    q = skip_digits(json, q);
    if q < json.len() && json[q] == DOT {
        q = skip_digits(json, q + 1);
    }
    if q < json.len() && (json[q] == LOWER_E || json[q] == UPPER_E) {
        if json.len() - q < 2 {
            return None;
        }
        let mut q3 = q + 1;
        if json[q3] == PLUS || json[q3] == MINUS {
            q3 = q3 + 1;
        }
        q3 = skip_digits(json, q3);
        return Some(q3 - p);
    }
    Some(q - p)
}

/// Scan a string from its opening quote to just past its unescaped closing
/// quote, honoring escape sequences.
fn parse_string(json: &[u8], p: usize) -> (r: Option<usize>)
    requires
        p < json@.len(),
        json@[p as int] == QUOTE,
    ensures
        r.is_some() == spec_string_end(json@, p as int).is_some(),
        r matches Some(e) ==> spec_string_end(json@, p as int) == Some(e as int) && p + 2 <= e
            <= json@.len(),
{
    let n = json.len();
    let mut k = p + 1;
    let mut esc = false;
    loop
        invariant
            p + 1 <= k <= json@.len(),
            n == json@.len(),
            string_body_end(json@, p as int + 1, false) == string_body_end(
                json@,
                k as int,
                esc,
            ),
        decreases json@.len() - k,
    {
        if k == n {
            return None;
        }
        let c = json[k];
        if esc {
            esc = false;
            k = k + 1;
        } else if c == QUOTE {
            return Some(k + 1);
        } else if c == BACKSLASH {
            esc = true;
            k = k + 1;
        } else {
            k = k + 1;
        }
    }
}

/// Attach trailing whitespace to a childless node and stop at a delimiter
/// or the end of input.
fn finish_simple_exec(
    json: &[u8],
    q: usize,
    w1: usize,
    ctrl: usize,
    data: usize,
    kind: JsonValueKind,
) -> (r: Option<(JsonSize, usize, bool)>)
    requires
        q <= json@.len(),
        w1 + ctrl + data <= q,
    ensures
        value_match(r, finish_simple(json@, q as int, w1 as int, ctrl as int, data as int, kind)),
        r matches Some(t) ==> q <= t.1 <= json@.len() && t.2 == false,
{
    let e = skip_whitespace(json, q);
    let w2 = e - q;
    let stop = e == json.len() || json[e] == COMMA || json[e] == CLOSE_BRACKET || json[e]
        == CLOSE_BRACE;
    if stop {
        let node = JsonSize {
            whitespace: w1 + w2,
            control_chars: ctrl,
            data_size: data,
            children: Vec::new(),
            value_kind: kind,
            key: JsonKey { index: 0, key_ptr: None },
        };
        proof {
            assert(trees_of(node.children@) =~= Seq::<SizeTree>::empty());
        }
        Some((node, e, false))
    } else {
        None
    }
}

/// Attach trailing whitespace to a finished container node and stop at a
/// delimiter or the end of input.
fn finish_container_exec(json: &[u8], q: usize, node: JsonSize) -> (r: Option<
    (JsonSize, usize, bool),
>)
    requires
        q <= json@.len(),
        node.whitespace <= q,
    ensures
        value_match(r, finish_container(json@, q as int, tree_of(node))),
        r matches Some(t) ==> q <= t.1 <= json@.len() && t.2 == false,
{
    let e = skip_whitespace(json, q);
    let w2 = e - q;
    let stop = e == json.len() || json[e] == COMMA || json[e] == CLOSE_BRACKET || json[e]
        == CLOSE_BRACE;
    if stop {
        let mut n = node;
        n.whitespace = n.whitespace + w2;
        Some((n, e, false))
    } else {
        None
    }
}

/// Parse one value slot: leading whitespace, at most one value, trailing
/// whitespace.  Recursion depth is bounded by the nesting depth of the
/// input, one native stack frame pair per container level.
fn parse_value(json: &[u8], pos: usize) -> (r: Option<(JsonSize, usize, bool)>)
    requires
        pos <= json@.len(),
    ensures
        value_match(r, spec_parse_value(json@, pos as int)),
        r matches Some(t) ==> pos <= t.1 <= json@.len(),
    decreases json@.len() - pos, 1int,
{
    let p = skip_whitespace(json, pos);
    if p == json.len() {
        let node = JsonSize {
            whitespace: p - pos,
            control_chars: 0,
            data_size: 0,
            children: Vec::new(),
            value_kind: JsonValueKind::Null,
            key: JsonKey { index: 0, key_ptr: None },
        };
        proof {
            assert(trees_of(node.children@) =~= Seq::<SizeTree>::empty());
        }
        return Some((node, p, true));
    }
    let c = json[p];
    if c == COMMA || c == CLOSE_BRACKET || c == CLOSE_BRACE {
        let node = JsonSize {
            whitespace: p - pos,
            control_chars: 0,
            data_size: 0,
            children: Vec::new(),
            value_kind: JsonValueKind::Null,
            key: JsonKey { index: 0, key_ptr: None },
        };
        proof {
            assert(trees_of(node.children@) =~= Seq::<SizeTree>::empty());
        }
        return Some((node, p, true));
    }
    if c == LOWER_T || c == LOWER_F || c == LOWER_N {
        let kind = if c == LOWER_N {
            JsonValueKind::Null
        } else {
            JsonValueKind::Boolean
        };
        return match parse_any_keyword(json, p) {
            Some(klen) => finish_simple_exec(json, p + klen, p - pos, 0, klen, kind),
            None => None,
        };
    }
    if c == QUOTE {
        return match parse_string(json, p) {
            Some(send) => finish_simple_exec(
                json,
                send,
                p - pos,
                2,
                send - p - 2,
                JsonValueKind::String,
            ),
            None => None,
        };
    }
    if c == MINUS || (DIGIT_ZERO <= c && c <= DIGIT_NINE) {
        return match parse_number(json, p) {
            Some(nlen) => finish_simple_exec(json, p + nlen, p - pos, 0, nlen, JsonValueKind::Number),
            None => None,
        };
    }
    if c == OPEN_BRACKET {
        return match parse_array(json, p) {
            Some((children, w, cc, d, endb)) => {
                proof {
                    lemma_items_props(json@, p as int + 1, 0);
                }
                let node = JsonSize {
                    whitespace: (p - pos) + w,
                    control_chars: 2 + cc,
                    data_size: d,
                    children: children,
                    value_kind: JsonValueKind::Array,
                    key: JsonKey { index: 0, key_ptr: None },
                };
                finish_container_exec(json, endb + 1, node)
            },
            None => None,
        };
    }
    if c == OPEN_BRACE {
        return match parse_object(json, p) {
            Some((children, w, cc, d, endb)) => {
                proof {
                    lemma_members_props(json@, p as int + 1, 0);
                }
                let node = JsonSize {
                    whitespace: (p - pos) + w,
                    control_chars: 2 + cc,
                    data_size: d,
                    children: children,
                    value_kind: JsonValueKind::Object,
                    key: JsonKey { index: 0, key_ptr: None },
                };
                finish_container_exec(json, endb + 1, node)
            },
            None => None,
        };
    }
    None
}

/// Parse the items of an array, consuming its opening bracket but leaving
/// the closing bracket to the caller's report.  Returns the children and
/// the summed whitespace, control and data of the array's body, and the
/// index of `]`.
#[verifier::rlimit(100)]
fn parse_array(json: &[u8], p: usize) -> (r: Option<(Vec<JsonSize>, usize, usize, usize, usize)>)
    requires
        p < json@.len(),
        json@[p as int] == OPEN_BRACKET,
    ensures
        items_match(r, spec_array_items(json@, p as int + 1, 0)),
        r matches Some(t) ==> p < t.4 < json@.len(),
    decreases json@.len() - p, 0int,
{
    let ghost s = json@;
    let n = json.len();
    let mut q: usize = p + 1;
    let mut children: Vec<JsonSize> = Vec::new();
    let mut w: usize = 0;
    let mut cc: usize = 0;
    let mut d: usize = 0;
    loop
        invariant
            p + 1 <= q <= s.len(),
            s == json@,
            n == s.len(),
            p < s.len() && s[p as int] == OPEN_BRACKET,
            w + cc + d == q - (p + 1),
            spec_array_items(s, p as int + 1, 0) == (match spec_array_items(
                s,
                q as int,
                children@.len() as int,
            ) {
                Option::None => Option::<ItemsOut>::None,
                Option::Some(it2) => Option::Some(
                    ItemsOut {
                        children: trees_of(children@) + it2.children,
                        whitespace: w + it2.whitespace,
                        control: cc + it2.control,
                        data: d + it2.data,
                        end: it2.end,
                    },
                ),
            }),
        decreases s.len() - q,
    {
        let ghost idx = children@.len() as int;
        match parse_value(json, q) {
            None => {
                return None;
            },
            Some((node0, vend, empty)) => {
                proof {
                    lemma_value_props(s, q as int);
                }
                let mut node = node0;
                node.key = JsonKey { index: children.len(), key_ptr: None };
                let ghost v = spec_parse_value(s, q as int)->Some_0;
                proof {
                    assert(tree_of(node) == with_key(v.node, idx, Option::None));
                }
                w = w + node.whitespace;
                cc = cc + node.control_chars;
                d = d + node.data_size;
                let ghost old_children = children@;
                if !empty {
                    children.push(node);
                    proof {
                        lemma_trees_of_push(old_children, node);
                    }
                } else {
                    proof {
                        assert(trees_of(old_children) + Seq::<SizeTree>::empty() =~= trees_of(
                            old_children,
                        ));
                    }
                }
                if vend == json.len() {
                    return None;
                }
                let cb = json[vend];
                if cb == CLOSE_BRACKET {
                    proof {
                        assert(trees_of(children@) =~= trees_of(old_children) + (if v.empty {
                            Seq::<SizeTree>::empty()
                        } else {
                            seq![with_key(v.node, idx, Option::None)]
                        }));
                    }
                    return Some((children, w, cc, d, vend));
                }
                if cb == COMMA {
                    cc = cc + 1;
                    proof {
                        let kids = if v.empty {
                            Seq::<SizeTree>::empty()
                        } else {
                            seq![with_key(v.node, idx, Option::None)]
                        };
                        assert(trees_of(children@) =~= trees_of(old_children) + kids);
                        if let Some(it3) = spec_array_items(
                            s,
                            vend as int + 1,
                            children@.len() as int,
                        ) {
                            assert((trees_of(old_children) + kids) + it3.children =~= trees_of(
                                old_children,
                            ) + (kids + it3.children));
                        }
                    }
                    q = vend + 1;
                } else {
                    return None;
                }
            },
        }
    }
}

/// Parse the members of an object, consuming its opening brace but leaving
/// the closing brace to the caller's report.
#[verifier::rlimit(100)]
fn parse_object(json: &[u8], p: usize) -> (r: Option<(Vec<JsonSize>, usize, usize, usize, usize)>)
    requires
        p < json@.len(),
        json@[p as int] == OPEN_BRACE,
    ensures
        items_match(r, spec_object_members(json@, p as int + 1, 0)),
        r matches Some(t) ==> p < t.4 < json@.len(),
    decreases json@.len() - p, 0int,
{
    let ghost s = json@;
    let n = json.len();
    let mut q: usize = p + 1;
    let mut children: Vec<JsonSize> = Vec::new();
    let mut w: usize = 0;
    let mut cc: usize = 0;
    let mut d: usize = 0;
    loop
        invariant
            p + 1 <= q <= s.len(),
            s == json@,
            n == s.len(),
            p < s.len() && s[p as int] == OPEN_BRACE,
            w + cc + d == q - (p + 1),
            spec_object_members(s, p as int + 1, 0) == (match spec_object_members(
                s,
                q as int,
                children@.len() as int,
            ) {
                Option::None => Option::<ItemsOut>::None,
                Option::Some(it2) => Option::Some(
                    ItemsOut {
                        children: trees_of(children@) + it2.children,
                        whitespace: w + it2.whitespace,
                        control: cc + it2.control,
                        data: d + it2.data,
                        end: it2.end,
                    },
                ),
            }),
        decreases s.len() - q,
    {
        let ghost idx = children@.len() as int;
        let k = skip_whitespace(json, q);
        if k == json.len() {
            return None;
        }
        let c0 = json[k];
        if c0 == CLOSE_BRACE {
            proof {
                assert(trees_of(children@) + Seq::<SizeTree>::empty() =~= trees_of(children@));
            }
            w = w + (k - q);
            return Some((children, w, cc, d, k));
        }
        if c0 != QUOTE {
            return None;
        }
        match parse_string(json, k) {
            None => {
                return None;
            },
            Some(kend) => {
                let e2 = skip_whitespace(json, kend);
                if e2 == json.len() {
                    return None;
                }
                if json[e2] != COLON {
                    return None;
                }
                match parse_value(json, e2 + 1) {
                    None => {
                        return None;
                    },
                    Some((node0, vend, empty)) => {
                        if empty {
                            return None;
                        }
                        proof {
                            lemma_value_props(s, e2 as int + 1);
                        }
                        let mut node = node0;
                        node.key = JsonKey {
                            index: children.len(),
                            key_ptr: Some(Span { start: k + 1 }),
                        };
                        let ghost v = spec_parse_value(s, e2 as int + 1)->Some_0;
                        proof {
                            assert(tree_of(node) == with_key(v.node, idx, Option::Some(k as int + 1)));
                        }
                        w = w + (k - q) + (e2 - kend) + node.whitespace;
                        cc = cc + 3 + node.control_chars;
                        d = d + (kend - k - 2) + node.data_size;
                        let ghost old_children = children@;
                        children.push(node);
                        proof {
                            lemma_trees_of_push(old_children, node);
                        }
                        if vend == json.len() {
                            return None;
                        }
                        let cb = json[vend];
                        if cb == CLOSE_BRACE {
                            return Some((children, w, cc, d, vend));
                        }
                        if cb == COMMA {
                            cc = cc + 1;
                            proof {
                                let child = with_key(v.node, idx, Option::Some(k as int + 1));
                                if let Some(it3) = spec_object_members(
                                    s,
                                    vend as int + 1,
                                    children@.len() as int,
                                ) {
                                    assert((trees_of(old_children) + seq![child]) + it3.children
                                        =~= trees_of(old_children) + (seq![child] + it3.children));
                                }
                            }
                            q = vend + 1;
                        } else {
                            return None;
                        }
                    },
                }
            },
        }
    }
}

/// Index of the unescaped quote that terminates the key starting at `i`,
/// or the input's length when no terminator follows.
pub open spec fn spec_key_end(s: Seq<u8>, i: int) -> int {
    match string_body_end(s, i, false) {
        Some(q) => q,
        None => s.len() as int,
    }
}

/// Decimal digits of `n` (empty for a negative argument, which no caller
/// produces).
pub open spec fn dec_seq(n: int) -> Seq<u8>
    decreases n,
{
    if n < 0 {
        Seq::empty()
    } else if n < 10 {
        seq![(DIGIT_ZERO as int + n) as u8]
    } else {
        dec_seq(n / 10) + seq![(DIGIT_ZERO as int + (n % 10)) as u8]
    }
}

/// A key-span start clipped into the text; every span a parse produces is
/// already in range.
pub open spec fn clamped_start(s: Seq<u8>, st: int) -> int {
    if 0 <= st <= s.len() {
        st
    } else {
        s.len() as int
    }
}

/// A node's display label: the member key re-scanned from the original
/// text, still escaped and wrapped in quotes, or the array index in
/// decimal.
pub open spec fn spec_key_label(s: Seq<u8>, k: KeyModel) -> Seq<u8> {
    match k.key_start {
        Some(st) => {
            let st2 = clamped_start(s, st);
            seq![QUOTE] + s.subrange(st2, spec_key_end(s, st2)) + seq![QUOTE]
        },
        None => dec_seq(k.index),
    }
}

/// Right-align a digit string in a 12-byte field.
pub open spec fn pad12(d: Seq<u8>) -> Seq<u8> {
    if d.len() >= 12 {
        d
    } else {
        spaces(12 - d.len()) + d
    }
}

/// The completely filled usage bar.
pub open spec fn full_bar() -> Seq<u8> {
    seq![OPEN_BRACKET, HASH, HASH, HASH, HASH, HASH, HASH, HASH, HASH, HASH, HASH, CLOSE_BRACKET]
}

/// A child's usage bar: cell `i` is filled exactly when
/// `child_total * 10 > parent_total * i`.
pub open spec fn child_bar(ct: int, pt: int) -> Seq<u8> {
    seq![OPEN_BRACKET] + Seq::new(
        10,
        |i: int|
            if ct * 10 > pt * i {
                HASH
            } else {
                SPACE
            },
    ) + seq![CLOSE_BRACKET]
}

/// The bytes of the word `Total`.
pub open spec fn total_label() -> Seq<u8> {
    seq![84u8, 111u8, 116u8, 97u8, 108u8]
}

/// The header line: the node's aggregate size, a full bar, and `Total`.
pub open spec fn root_line(total: int) -> Seq<u8> {
    pad12(dec_seq(total)) + seq![SPACE] + full_bar() + seq![SPACE] + total_label()
}

/// One line per direct child: its aggregate size, its proportional bar,
/// and its resolved key.
pub open spec fn child_line(pt: int, c: SizeTree, s: Seq<u8>) -> Seq<u8> {
    pad12(dec_seq(total_of(c))) + seq![SPACE] + child_bar(total_of(c), pt) + seq![SPACE]
        + spec_key_label(s, c.key)
}

/// All display lines of a node: the header, then one line per child in
/// source order.
pub open spec fn spec_display_list(t: SizeTree, s: Seq<u8>) -> Seq<Seq<u8>> {
    seq![root_line(total_of(t))] + Seq::new(
        t.children.len(),
        |i: int| child_line(total_of(t), t.children[i], s),
    )
}

proof fn lemma_trees_of_len(cs: Seq<JsonSize>)
    ensures
        trees_of(cs).len() == cs.len(),
    decreases cs.len(),
{
    if cs.len() > 0 {
        lemma_trees_of_len(cs.drop_first());
    }
}

proof fn lemma_trees_of_index(cs: Seq<JsonSize>, i: int)
    requires
        0 <= i < cs.len(),
    ensures
        trees_of(cs).len() == cs.len(),
        trees_of(cs)[i] == tree_of(cs[i]),
    decreases i,
{
    lemma_trees_of_len(cs);
    if i == 0 {
    } else {
        lemma_trees_of_index(cs.drop_first(), i - 1);
    }
}

/// Rescan forward from a key's start offset, honoring escape sequences, to
/// find the key's terminating quote.  Returns the input's length when no
/// terminator exists.
fn find_string_end(key_ptr: Span, json: &[u8]) -> (r: usize)
    ensures
        r as int == spec_key_end(json@, clamped_start(json@, key_ptr.start as int)),
        clamped_start(json@, key_ptr.start as int) <= r as int <= json@.len(),
{
    let n = json.len();
    let start = if key_ptr.start <= n {
        key_ptr.start
    } else {
        n
    };
    let mut k = start;
    let mut esc = false;
    loop
        invariant
            start <= k <= n,
            n == json@.len(),
            start as int == clamped_start(json@, key_ptr.start as int),
            string_body_end(json@, start as int, false) == string_body_end(json@, k as int, esc),
        decreases json@.len() - k,
    {
        if k == n {
            return k;
        }
        let c = json[k];
        if esc {
            esc = false;
            k = k + 1;
        } else if c == QUOTE {
            return k;
        } else if c == BACKSLASH {
            esc = true;
            k = k + 1;
        } else {
            k = k + 1;
        }
    }
}

/// Decimal rendering of an index or a size.
fn format_usize(n: usize) -> (r: Vec<u8>)
    ensures
        r@ == dec_seq(n as int),
    decreases n,
{
    if n < 10 {
        let mut v: Vec<u8> = Vec::new();
        v.push(DIGIT_ZERO + (n as u8));
        proof {
            assert(v@ =~= seq![(DIGIT_ZERO as int + n) as u8]);
        }
        v
    } else {
        let mut v = format_usize(n / 10);
        v.push(DIGIT_ZERO + ((n % 10) as u8));
        v
    }
}

impl JsonKey {
    /// Resolve this key for display, lazily, against the original text.
    pub fn to_display(&self, json: &[u8]) -> (r: Vec<u8>)
        ensures
            r@ == spec_key_label(json@, key_of(*self)),
    {
        match self.key_ptr {
            Some(kp) => {
                let e = find_string_end(kp, json);
                let n = json.len();
                let st = if kp.start <= n {
                    kp.start
                } else {
                    n
                };
                let mut out: Vec<u8> = Vec::new();
                out.push(QUOTE);
                let mut i = st;
                while i < e
                    invariant
                        st <= i <= e,
                        e <= json@.len(),
                        self.key_ptr == Some(kp),
                        st as int == clamped_start(json@, kp.start as int),
                        e as int == spec_key_end(json@, st as int),
                        out@ == seq![QUOTE] + json@.subrange(st as int, i as int),
                    decreases e - i,
                {
                    out.push(json[i]);
                    proof {
                        assert(json@.subrange(st as int, i as int + 1) =~= json@.subrange(
                            st as int,
                            i as int,
                        ) + seq![json@[i as int]]);
                    }
                    i = i + 1;
                }
                out.push(QUOTE);
                proof {
                    assert(out@ =~= seq![QUOTE] + json@.subrange(st as int, e as int) + seq![
                        QUOTE,
                    ]);
                }
                out
            },
            None => format_usize(self.index),
        }
    }
}

/// Right-align digits in a 12-byte field.
fn pad12_exec(d: Vec<u8>) -> (r: Vec<u8>)
    ensures
        r@ == pad12(d@),
{
    if d.len() >= 12 {
        d
    } else {
        let pad = 12 - d.len();
        let mut v: Vec<u8> = Vec::new();
        let mut i: usize = 0;
        while i < pad
            invariant
                i <= pad,
                v@ == spaces(i as int),
            decreases pad - i,
        {
            v.push(SPACE);
            proof {
                assert(v@ =~= spaces(i as int + 1));
            }
            i = i + 1;
        }
        let mut dd = d;
        v.append(&mut dd);
        v
    }
}

/// Build a child's proportional bar, in arithmetic wide enough that
/// `total * 10` cannot overflow.
fn child_bar_exec(ct: usize, pt: usize) -> (r: Vec<u8>)
    ensures
        r@ == child_bar(ct as int, pt as int),
{
    let mut v: Vec<u8> = Vec::new();
    v.push(OPEN_BRACKET);
    let mut i: usize = 0;
    while i < 10
        invariant
            i <= 10,
            v@ == seq![OPEN_BRACKET] + Seq::new(
                i as nat,
                |j: int|
                    if ct * 10 > pt * j {
                        HASH
                    } else {
                        SPACE
                    },
            ),
        decreases 10 - i,
    {
        proof {
            assert((pt as u128) * (i as u128) <= (pt as u128) * 9) by (nonlinear_arith)
                requires
                    i <= 9,
            ;
        }
        let fill = (ct as u128) * 10 > (pt as u128) * (i as u128);
        proof {
            assert((ct as u128) * 10 == ct * 10 && (pt as u128) * (i as u128) == pt * (
            i as int)) by (nonlinear_arith);
        }
        if fill {
            v.push(HASH);
        } else {
            v.push(SPACE);
        }
        proof {
            let f = |j: int|
                if ct * 10 > pt * j {
                    HASH
                } else {
                    SPACE
                };
            assert(v@ =~= seq![OPEN_BRACKET] + Seq::new(i as nat + 1, f));
        }
        i = i + 1;
    }
    v.push(CLOSE_BRACKET);
    proof {
        assert(v@ =~= child_bar(ct as int, pt as int));
    }
    v
}

/// The literal full bar of the header line.
fn full_bar_exec() -> (r: Vec<u8>)
    ensures
        r@ == full_bar(),
{
    let mut v: Vec<u8> = Vec::new();
    v.push(OPEN_BRACKET);
    let mut i: usize = 0;
    while i < 10
        invariant
            i <= 10,
            v@ == seq![OPEN_BRACKET] + Seq::new(i as nat, |j: int| HASH),
        decreases 10 - i,
    {
        v.push(HASH);
        proof {
            assert(v@ =~= seq![OPEN_BRACKET] + Seq::new(i as nat + 1, |j: int| HASH));
        }
        i = i + 1;
    }
    v.push(CLOSE_BRACKET);
    proof {
        assert(v@ =~= full_bar());
    }
    v
}

/// The word `Total`.
fn total_label_exec() -> (r: Vec<u8>)
    ensures
        r@ == total_label(),
{
    let mut v: Vec<u8> = Vec::new();
    v.push(84);
    v.push(111);
    v.push(116);
    v.push(97);
    v.push(108);
    proof {
        assert(v@ =~= total_label());
    }
    v
}

impl JsonSize {
    /// This node's aggregate size in bytes: its three counters, which
    /// already include every descendant's.
    fn total_size(&self) -> (r: usize)
        requires
            total_of(tree_of(*self)) <= usize::MAX,
        ensures
            r as int == total_of(tree_of(*self)),
    {
        self.whitespace + self.control_chars + self.data_size
    }

    /// Render this node and its direct children as display lines: a header
    /// with the aggregate total and a full bar, then one line per child
    /// with its own total, a proportional 10-cell bar, and its resolved
    /// key.  Children appear in source order.
    pub fn display_list(&self, json: &[u8]) -> (r: Vec<Vec<u8>>)
        requires
            total_of(tree_of(*self)) <= usize::MAX,
            tree_wf(tree_of(*self)),
        ensures
            r@.map_values(|l: Vec<u8>| l@) == spec_display_list(tree_of(*self), json@),
    {
        let ghost t = tree_of(*self);
        let total = self.total_size();
        let mut head = pad12_exec(format_usize(total));
        head.push(SPACE);
        let mut bar = full_bar_exec();
        head.append(&mut bar);
        head.push(SPACE);
        let mut label = total_label_exec();
        head.append(&mut label);
        proof {
            assert(head@ =~= root_line(total as int));
        }
        let mut lines: Vec<Vec<u8>> = Vec::new();
        lines.push(head);
        let n = self.children.len();
        proof {
            lemma_trees_of_len(self.children@);
            assert(lines@[0] == head);
        }
        let mut i: usize = 0;
        while i < n
            invariant
                i <= n,
                n == self.children@.len(),
                t == tree_of(*self),
                t.children.len() == n,
                total as int == total_of(t),
                total_of(t) <= usize::MAX,
                tree_wf(t),
                lines@.len() == i + 1,
                lines@[0]@ == root_line(total_of(t)),
                forall|j: int|
                    0 <= j < i ==> (#[trigger] lines@[j + 1])@ == child_line(
                        total_of(t),
                        t.children[j],
                        json@,
                    ),
            decreases n - i,
        {
            proof {
                lemma_trees_of_index(self.children@, i as int);
                lemma_children_wf_index(t.children, total_of(t), i as int);
            }
            let child = &self.children[i];
            let csize = child.total_size();
            let mut line = pad12_exec(format_usize(csize));
            line.push(SPACE);
            let mut bar = child_bar_exec(csize, total);
            line.append(&mut bar);
            line.push(SPACE);
            let mut name = child.key.to_display(json);
            line.append(&mut name);
            proof {
                assert(key_of(child.key) == t.children[i as int].key);
                assert(line@ =~= child_line(total_of(t), t.children[i as int], json@));
            }
            lines.push(line);
            i = i + 1;
        }
        proof {
            let shown = lines@.map_values(|l: Vec<u8>| l@);
            let want = spec_display_list(t, json@);
            assert(shown.len() == want.len());
            assert forall|j: int| 0 <= j < shown.len() implies shown[j] == want[j] by {
                assert(shown[j] == lines@[j]@);
                if j == 0 {
                    assert(want[0] == root_line(total_of(t)));
                } else {
                    assert(want[j] == child_line(total_of(t), t.children[j - 1], json@));
                    assert((lines@[(j - 1) + 1])@ == child_line(
                        total_of(t),
                        t.children[j - 1],
                        json@,
                    ));
                }
            }
            assert(shown =~= want);
        }
        lines
    }
}

impl JsonSize {
    /// Parse a document into its size tree.  Returns `None` when the text
    /// is not well-formed JSON; on success the tree's counters conserve
    /// every byte of the input.
    pub fn new(json: &[u8]) -> (r: Option<JsonSize>)
        ensures
            r.is_some() == spec_parse_text(json@).is_some(),
            r matches Some(js) ==> spec_parse_text(json@) == Some(tree_of(js)),
            r matches Some(js) ==> js.whitespace + js.control_chars + js.data_size == json@.len()
                && tree_wf(tree_of(js)) && total_of(tree_of(js)) == json@.len(),
    {
        match parse_value(json, 0) {
            None => None,
            Some((node, end, _empty)) => {
                if end == json.len() {
                    proof {
                        lemma_value_props(json@, 0);
                    }
                    Some(node)
                } else {
                    None
                }
            },
        }
    }
}

} // verus!
