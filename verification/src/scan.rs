//! The scanner: a single left-to-right pass over a byte buffer that
//! produces the flat token sequence.
//!
//! The token stream is specified by a small state machine,
//! [`scan_step`], folded over the buffer by [`scan_from`]. The
//! executable [`Scanner::parse`] is proved to emit exactly that stream,
//! decoded from UTF-8, or to report a decoding error exactly when some
//! emitted slice is not valid UTF-8.

use vstd::prelude::*;

use crate::token::kind_of;
use crate::token::Token;
use crate::token::Tokenizer;
use vstd::utf8::decode_utf8;
use vstd::utf8::valid_utf8;

verus! {

/// A token as the specification-level scanner emits it: a kind and the
/// raw bytes of its value slice.
pub ghost struct RawToken {
    pub kind: Tokenizer,
    pub value: Seq<u8>,
}

/// The full transient state of the scanner between two bytes: the read
/// position, the start offset of the pending slice (0 means none is
/// pending) and the seven mode flags.
pub ghost struct ScanState {
    pub pos: int,
    pub start: int,
    pub is_tag: bool,
    pub is_end: bool,
    pub is_attribute: bool,
    pub is_string: bool,
    pub has_text: bool,
    pub ignore_once: bool,
    pub is_annotation: bool,
}

/// The state the scanner starts a pass in: a cursor, a pending-slice
/// start, and every mode flag off.
pub open spec fn init_state(pos: int, start: int) -> ScanState {
    ScanState {
        pos: pos,
        start: start,
        is_tag: false,
        is_end: false,
        is_attribute: false,
        is_string: false,
        has_text: false,
        ignore_once: false,
        is_annotation: false,
    }
}

/// The value of a flushed slice: the bytes from `start` to `end`, or the
/// empty slice when the interval is not a well-formed range of the
/// buffer (in particular when the cursor has not yet reached the start
/// of the pending slice, so nothing has been accumulated).
pub open spec fn slice_val(bytes: Seq<u8>, start: int, end: int) -> Seq<u8> {
    if 0 <= start <= end <= bytes.len() {
        bytes.subrange(start, end)
    } else {
        Seq::empty()
    }
}

/// One step of the scanner: reads the byte at `st.pos`, emits zero or
/// one token, and moves to the next state. Meaningful when
/// `0 <= st.pos < bytes.len()`.
pub open spec fn scan_step(bytes: Seq<u8>, st: ScanState) -> (Seq<RawToken>, ScanState) {
    let b = bytes[st.pos];
    if st.is_annotation {
        // Only `-` is of interest: peek two bytes for the `->` that ends
        // the comment. A truncated terminator at the end of the buffer
        // never fires.
        if b == 45u8 && st.pos + 2 < bytes.len() && bytes[st.pos + 1] == 45u8 && bytes[st.pos + 2]
            == 62u8 {
            (
                seq![
                    RawToken {
                        kind: Tokenizer::Annocation,
                        value: slice_val(bytes, st.start, st.pos),
                    },
                ],
                ScanState { pos: st.pos + 2, start: 0, is_annotation: false, ..st },
            )
        } else {
            (seq![], ScanState { pos: st.pos + 1, ..st })
        }
    } else if b == 60u8 {  // '<'
        let flushed = st.start != 0 && st.pos != st.start;
        (
            if flushed {
                seq![
                    RawToken {
                        kind: kind_of(st.is_tag, st.is_end, st.is_attribute, false),
                        value: slice_val(bytes, st.start, st.pos),
                    },
                ]
            } else {
                seq![]
            },
            ScanState {
                pos: st.pos + 1,
                start: if flushed {
                    0
                } else {
                    st.start
                },
                is_tag: true,
                ignore_once: false,
                ..st
            },
        )
    } else if b == 33u8 {  // '!'
        // Only meaningful right inside a tag: peek two bytes for `--`,
        // which opens a comment whose content starts three bytes on.
        if st.is_tag && st.pos + 2 < bytes.len() && bytes[st.pos + 1] == 45u8 && bytes[st.pos + 2]
            == 45u8 {
            (
                seq![],
                ScanState {
                    pos: st.pos + 1,
                    start: st.pos + 3,
                    is_tag: false,
                    is_end: false,
                    is_attribute: false,
                    is_string: false,
                    has_text: false,
                    ignore_once: false,
                    is_annotation: true,
                },
            )
        } else {
            (seq![], ScanState { pos: st.pos + 1, ..st })
        }
    } else if b == 62u8 {  // '>'
        if st.start != 0 {
            (
                seq![
                    RawToken {
                        kind: kind_of(st.is_tag, st.is_end, st.is_attribute, false),
                        value: slice_val(bytes, st.start, st.pos),
                    },
                ],
                ScanState {
                    pos: st.pos + 1,
                    start: 0,
                    is_tag: false,
                    is_end: false,
                    is_attribute: false,
                    ..st
                },
            )
        } else if st.is_end && !st.ignore_once {
            (
                seq![
                    RawToken {
                        kind: kind_of(st.is_tag, st.is_end, st.is_attribute, false),
                        value: Seq::empty(),
                    },
                ],
                ScanState {
                    pos: st.pos + 1,
                    is_tag: false,
                    is_end: false,
                    is_attribute: false,
                    ..st
                },
            )
        } else if st.is_end {
            (
                seq![],
                ScanState {
                    pos: st.pos + 1,
                    is_tag: false,
                    is_end: false,
                    is_attribute: false,
                    ignore_once: false,
                    ..st
                },
            )
        } else {
            (
                seq![],
                ScanState {
                    pos: st.pos + 1,
                    is_tag: false,
                    is_end: false,
                    is_attribute: false,
                    ..st
                },
            )
        }
    } else if b == 47u8 {  // '/'
        if st.is_string {
            (seq![], ScanState { pos: st.pos + 1, ..st })
        } else {
            (
                seq![],
                ScanState {
                    pos: st.pos + 1,
                    start: st.pos + 1,
                    is_end: st.is_end || st.is_tag,
                    ..st
                },
            )
        }
    } else if b == 10u8 || b == 13u8 || b == 32u8 {  // whitespace
        if st.is_string {
            (seq![], ScanState { pos: st.pos + 1, ..st })
        } else if !st.has_text {
            (seq![], ScanState { pos: st.pos + 1, start: 0, ..st })
        } else if st.is_tag {
            (
                seq![
                    RawToken {
                        kind: kind_of(st.is_tag, st.is_end, st.is_attribute, false),
                        value: slice_val(bytes, st.start, st.pos),
                    },
                ],
                ScanState {
                    pos: st.pos + 1,
                    start: 0,
                    is_attribute: true,
                    has_text: false,
                    ignore_once: st.ignore_once || st.is_end,
                    ..st
                },
            )
        } else {
            (seq![], ScanState { pos: st.pos + 1, ..st })
        }
    } else if b == 34u8 {  // '"'
        (
            seq![],
            ScanState {
                pos: st.pos + 1,
                start: if st.start == 0 && !st.is_string {
                    st.pos
                } else {
                    st.start
                },
                is_string: !st.is_string,
                ..st
            },
        )
    } else {
        if st.start == 0 {
            (seq![], ScanState { pos: st.pos + 1, start: st.pos, has_text: true, ..st })
        } else {
            (seq![], ScanState { pos: st.pos + 1, ..st })
        }
    }
}

/// The tokens the scanner emits from state `st` to the end of the
/// buffer.
pub open spec fn scan_from(bytes: Seq<u8>, st: ScanState) -> Seq<RawToken>
    decreases bytes.len() - st.pos,
{
    if st.pos < 0 || st.pos >= bytes.len() {
        seq![]
    } else {
        let stepped = scan_step(bytes, st);
        stepped.0 + scan_from(bytes, stepped.1)
    }
}

/// The token sequence of a whole buffer: a fresh pass from its first
/// byte, with no pending slice and every flag off.
pub open spec fn scan_spec(bytes: Seq<u8>) -> Seq<RawToken> {
    scan_from(bytes, init_state(0, 0))
}

/// The error of a scanning pass: some emitted value slice was not valid
/// UTF-8.
#[derive(Debug, Clone, Copy, PartialEq, Eq)]
pub enum ScanError {
    InvalidUtf8,
}

/// The scanner's cursor over a byte buffer: the buffer itself, the
/// absolute read position, the start offset of the pending slice
/// (0 means none) and the end bound.
#[derive(Debug)]
pub struct Scanner {
    bytes: Vec<u8>,
    start_position: usize,
    position: usize,
    end: usize,
}

/// The scanner's seven mode flags as one executable record.
#[derive(Clone, Copy)]
struct Mode {
    is_tag: bool,
    is_end: bool,
    is_attribute: bool,
    is_string: bool,
    has_text: bool,
    ignore_once: bool,
    is_annotation: bool,
}

/// The specification-level state a mode record, a cursor and a
/// pending-slice start stand for.
spec fn state_of(m: Mode, pos: int, start: int) -> ScanState {
    ScanState {
        pos: pos,
        start: start,
        is_tag: m.is_tag,
        is_end: m.is_end,
        is_attribute: m.is_attribute,
        is_string: m.is_string,
        has_text: m.has_text,
        ignore_once: m.ignore_once,
        is_annotation: m.is_annotation,
    }
}

/// Relies on `String::from_utf8`: it returns `Ok` exactly when the bytes
/// are valid UTF-8, and the string it then returns is their decoding.
#[verifier::external_body]
fn utf8_to_string(bytes: Vec<u8>) -> (r: Option<String>)
    ensures
        r is Some <==> valid_utf8(bytes@),
        r is Some ==> r->0@ == decode_utf8(bytes@),
{
    String::from_utf8(bytes).ok()
}

impl View for Scanner {
    type V = Seq<u8>;

    /// A scanner is viewed as the byte buffer it walks.
    closed spec fn view(&self) -> Seq<u8> {
        self.bytes@
    }
}

impl Scanner {
    /// The end bound always matches the buffer.
    #[verifier::type_invariant]
    spec fn inv(&self) -> bool {
        self.end == self.bytes@.len()
    }

    /// The state a pass started now would run from: the current cursor
    /// and pending-slice start, with every mode flag off.
    pub closed spec fn pending_state(&self) -> ScanState {
        init_state(self.position as int, self.start_position as int)
    }

    /// Builds a scanner over a copy of the given buffer, with the cursor
    /// at its first byte and no pending slice.
    pub fn new(bytes: &[u8]) -> (r: Scanner)
        ensures
            r@ == bytes@,
            r.pending_state() == init_state(0, 0),
    {
        Scanner {
            bytes: vstd::slice::slice_to_vec(bytes),
            start_position: 0,
            position: 0,
            end: bytes.len(),
        }
    }

    /// Walks the buffer once from the current cursor and returns the
    /// token stream the specification-level scanner emits for it, each
    /// value slice decoded from UTF-8; reports a decoding error exactly
    /// when some emitted slice is not valid UTF-8.
    #[verifier::rlimit(100)]
    #[verifier::spinoff_prover]
    pub fn parse(&mut self) -> (r: Result<Vec<Token>, ScanError>)
        ensures
            final(self)@ == old(self)@,
            ({
                let toks = scan_from(old(self)@, old(self).pending_state());
                &&& (r is Ok <==> (forall|i: int|
                    0 <= i < toks.len() ==> valid_utf8(#[trigger] toks[i].value)))
                &&& (r is Ok ==> tokens_match(toks, r->Ok_0@))
            }),
    {
        proof {
            use_type_invariant(&*self);
        }
        let ghost bs: Seq<u8> = self@;
        let ghost mut st: ScanState = init_state(
            self.position as int,
            self.start_position as int,
        );
        let ghost full: Seq<RawToken> = scan_from(bs, st);
        let ghost mut emitted: Seq<RawToken> = seq![];
        proof {
            assert(st == old(self).pending_state());
            assert(emitted + scan_from(bs, st) =~= full);
        }
        let mut tokens: Vec<Token> = Vec::new();
        let mut mode = Mode {
            is_tag: false,
            is_end: false,
            is_attribute: false,
            is_string: false,
            has_text: false,
            ignore_once: false,
            is_annotation: false,
        };

        while self.position < self.end
            invariant
                self.end == self.bytes@.len(),
                self@ == bs,
                bs == old(self)@,
                st == state_of(mode, self.position as int, self.start_position as int),
                full == emitted + scan_from(bs, st),
                full == scan_from(old(self)@, old(self).pending_state()),
                tokens_match(emitted, tokens@),
            decreases self.end - self.position,
        {
            let ghost prev = st;
            let ghost stepped = scan_step(bs, prev);
            let ghost toks0 = tokens@;
            proof {
                assert(scan_from(bs, prev) == stepped.0 + scan_from(bs, stepped.1));
            }
            if !self.step(&mut tokens, &mut mode) {
                proof {
                    lemma_invalid_at(full, emitted, stepped.0, scan_from(bs, stepped.1));
                }
                return Err(ScanError::InvalidUtf8);
            }
            proof {
                assert((emitted + stepped.0) + scan_from(bs, stepped.1) =~= emitted + (stepped.0
                    + scan_from(bs, stepped.1)));
                lemma_match_extend(emitted, toks0, stepped.0, tokens@);
                emitted = emitted + stepped.0;
                st = stepped.1;
            }
        }
        proof {
            assert(scan_from(bs, st) =~= seq![]);
            assert(full =~= emitted);
            let toks = scan_from(old(self)@, old(self).pending_state());
            assert(toks == emitted);
            assert(tokens_match(toks, tokens@));
            assert forall|i: int| 0 <= i < toks.len() implies valid_utf8(
                #[trigger] toks[i].value,
            ) by {
                assert(toks[i] == emitted[i]);
                assert(valid_utf8(emitted[i].value));
            }
        }
        Ok(tokens)
    }

    /// Reads the byte at the cursor, carries out its dispatch rule --
    /// emitting at most one token into `tokens` and updating the mode
    /// flags, the pending-slice start and the cursor -- and reports
    /// failure exactly when a flushed slice is not valid UTF-8.
    #[verifier::rlimit(100)]
    #[verifier::spinoff_prover]
    fn step(&mut self, tokens: &mut Vec<Token>, m: &mut Mode) -> (ok: bool)
        requires
            old(self).position < old(self).end,
        ensures
            ({
                let prev = state_of(
                    *old(m),
                    old(self).position as int,
                    old(self).start_position as int,
                );
                let stepped = scan_step(old(self)@, prev);
                &&& final(self)@ == old(self)@
                &&& final(self).end == old(self).end
                &&& (ok ==> state_of(
                    *final(m),
                    final(self).position as int,
                    final(self).start_position as int,
                ) == stepped.1)
                &&& (ok ==> final(self).position > old(self).position)
                &&& stepped.0.len() <= 1
                &&& (ok ==> final(tokens)@.len() == old(tokens)@.len() + stepped.0.len())
                &&& (ok ==> (forall|j: int|
                    0 <= j < old(tokens)@.len() ==> final(tokens)@[j] == #[trigger] old(tokens)@[j]))
                &&& (ok && stepped.0.len() == 1 ==> valid_utf8(stepped.0[0].value)
                    && final(tokens)@.last().tokenizer == stepped.0[0].kind
                    && final(tokens)@.last().value@ == decode_utf8(stepped.0[0].value))
                &&& (!ok ==> stepped.0.len() == 1 && !valid_utf8(stepped.0[0].value)
                    && final(tokens)@ == old(tokens)@)
            }),
    {
        proof {
            use_type_invariant(&*self);
        }
        let byte = self.bytes[self.position];
        if m.is_annotation {
            let mut terminated = false;
            if byte == 45u8 && self.end - self.position > 2 {
                let b1 = self.bytes[self.position + 1];
                let b2 = self.bytes[self.position + 2];
                if b1 == 45u8 && b2 == 62u8 {
                    terminated = true;
                }
            }
            if terminated {
                if !self.flush_into(
                    tokens,
                    m.is_tag,
                    m.is_end,
                    m.is_attribute,
                    m.is_annotation,
                ) {
                    return false;
                }
                self.start_position = 0;
                m.is_annotation = false;
                self.position = self.position + 2;
            } else {
                self.position = self.position + 1;
            }
        } else if byte == 60u8 {  // b'<'
            if self.start_position != 0 && self.position != self.start_position {
                if !self.flush_into(
                    tokens,
                    m.is_tag,
                    m.is_end,
                    m.is_attribute,
                    m.is_annotation,
                ) {
                    return false;
                }
                self.start_position = 0;
            }
            m.is_tag = true;
            m.ignore_once = false;
            self.position = self.position + 1;
        } else if byte == 33u8 {  // b'!'
            if m.is_tag && self.end - self.position > 2 {
                let b1 = self.bytes[self.position + 1];
                let b2 = self.bytes[self.position + 2];
                if b1 == 45u8 && b2 == 45u8 {
                    self.start_position = self.position + 3;
                    m.is_annotation = true;
                    m.is_tag = false;
                    m.is_end = false;
                    m.is_attribute = false;
                    m.is_string = false;
                    m.has_text = false;
                    m.ignore_once = false;
                }
            }
            self.position = self.position + 1;
        } else if byte == 62u8 {  // b'>'
            if self.start_position != 0 {
                if !self.flush_into(
                    tokens,
                    m.is_tag,
                    m.is_end,
                    m.is_attribute,
                    m.is_annotation,
                ) {
                    return false;
                }
                self.start_position = 0;
            } else if m.is_end {
                if !m.ignore_once {
                    tokens.push(
                        Token::new("", m.is_tag, m.is_end, m.is_attribute, m.is_annotation),
                    );
                    proof {
                        reveal_strlit("");
                        assert(""@ =~= Seq::<char>::empty());
                        assert(valid_utf8(Seq::<u8>::empty()));
                        assert(decode_utf8(Seq::<u8>::empty()) =~= Seq::<char>::empty());
                    }
                } else {
                    m.ignore_once = false;
                }
            }
            m.is_tag = false;
            m.is_end = false;
            m.is_attribute = false;
            self.position = self.position + 1;
        } else if byte == 47u8 {  // b'/'
            if m.is_string {
                self.position = self.position + 1;
            } else {
                if m.is_tag {
                    m.is_end = true;
                }
                self.start_position = self.position + 1;
                self.position = self.position + 1;
            }
        } else if byte == 10u8 || byte == 13u8 || byte == 32u8 {  // whitespace
            if m.is_string {
                self.position = self.position + 1;
            } else if !m.has_text {
                self.position = self.position + 1;
                self.start_position = 0;
            } else if m.is_tag {
                if m.is_end {
                    m.ignore_once = true;
                }
                if !self.flush_into(
                    tokens,
                    m.is_tag,
                    m.is_end,
                    m.is_attribute,
                    m.is_annotation,
                ) {
                    return false;
                }
                m.is_attribute = true;
                m.has_text = false;
                self.start_position = 0;
                self.position = self.position + 1;
            } else {
                self.position = self.position + 1;
            }
        } else if byte == 34u8 {  // b'"'
            if self.start_position == 0 && !m.is_string {
                self.start_position = self.position;
            }
            m.is_string = !m.is_string;
            self.position = self.position + 1;
        } else {
            if self.start_position == 0 {
                m.has_text = true;
                self.start_position = self.position;
            }
            self.position = self.position + 1;
        }
        true
    }

    /// The bytes of the pending slice, from its start to the cursor.
    fn get_bytes(&self) -> (r: &[u8])
        requires
            self.start_position <= self.position <= self@.len(),
        ensures
            r@ == self@.subrange(self.start_position as int, self.position as int),
    {
        vstd::slice::slice_subrange(self.bytes.as_slice(), self.start_position, self.position)
    }

    /// Decodes the pending slice and appends it to the token stream
    /// with the given mode flags; reports failure exactly when the
    /// slice is not valid UTF-8, leaving the stream unchanged.
    fn flush_into(
        &self,
        tokens: &mut Vec<Token>,
        is_tag: bool,
        is_end: bool,
        is_attribute: bool,
        is_annotation: bool,
    ) -> (ok: bool)
        requires
            self.position <= self@.len(),
        ensures
            ({
                let raw = slice_val(self@, self.start_position as int, self.position as int);
                &&& (ok <==> valid_utf8(raw))
                &&& (ok ==> final(tokens)@.len() == old(tokens)@.len() + 1 && (forall|j: int|
                    0 <= j < old(tokens)@.len() ==> final(tokens)@[j] == #[trigger] old(
                        tokens,
                    )@[j]) && final(tokens)@.last().tokenizer == kind_of(
                    is_tag,
                    is_end,
                    is_attribute,
                    is_annotation,
                ) && final(tokens)@.last().value@ == decode_utf8(raw))
                &&& (!ok ==> final(tokens)@ == old(tokens)@)
            }),
    {
        if self.start_position <= self.position {
            let sv = vstd::slice::slice_to_vec(self.get_bytes());
            match utf8_to_string(sv) {
                Some(s) => {
                    let t = Token::new(s.as_str(), is_tag, is_end, is_attribute, is_annotation);
                    tokens.push(t);
                    true
                },
                None => false,
            }
        } else {
            // The cursor sits before the start of the pending slice, so
            // nothing has been accumulated: the flushed value is empty.
            let t = Token::new("", is_tag, is_end, is_attribute, is_annotation);
            tokens.push(t);
            proof {
                reveal_strlit("");
                assert(""@ =~= Seq::<char>::empty());
                assert(valid_utf8(Seq::<u8>::empty()));
                assert(decode_utf8(Seq::<u8>::empty()) =~= Seq::<char>::empty());
            }
            true
        }
    }
}

/// Whether `v` is one contiguous slice of `bytes`: all the bytes from
/// some start offset to some end offset, in order.
pub open spec fn is_contiguous_slice(bytes: Seq<u8>, v: Seq<u8>) -> bool {
    exists|s: int, e: int| 0 <= s <= e <= bytes.len() && v == bytes.subrange(s, e)
}

/// Every flushed value is one contiguous slice of the buffer.
proof fn lemma_slice_val_contiguous(bytes: Seq<u8>, start: int, end: int)
    ensures
        is_contiguous_slice(bytes, slice_val(bytes, start, end)),
        is_contiguous_slice(bytes, Seq::<u8>::empty()),
{
    assert(Seq::<u8>::empty() =~= bytes.subrange(0, 0));
    assert(0 <= 0 <= 0 <= bytes.len() && Seq::<u8>::empty() == bytes.subrange(0, 0));
    if 0 <= start <= end <= bytes.len() {
        assert(slice_val(bytes, start, end) == bytes.subrange(start, end));
    }
}

/// Every token scanned from any state covers one contiguous interval of
/// the buffer.
proof fn lemma_scan_from_slices(bytes: Seq<u8>, st: ScanState)
    ensures
        forall|i: int|
            0 <= i < scan_from(bytes, st).len() ==> is_contiguous_slice(
                bytes,
                (#[trigger] scan_from(bytes, st)[i]).value,
            ),
    decreases bytes.len() - st.pos,
{
    if st.pos < 0 || st.pos >= bytes.len() {
    } else {
        let stepped = scan_step(bytes, st);
        lemma_scan_from_slices(bytes, stepped.1);
        lemma_slice_val_contiguous(bytes, st.start, st.pos);
        assert(scan_from(bytes, st) == stepped.0 + scan_from(bytes, stepped.1));
        assert forall|i: int|
            0 <= i < scan_from(bytes, st).len() implies is_contiguous_slice(
            bytes,
            (#[trigger] scan_from(bytes, st)[i]).value,
        ) by {
            if i < stepped.0.len() {
                assert(scan_from(bytes, st)[i] == stepped.0[0]);
            } else {
                assert(scan_from(bytes, st)[i] == scan_from(bytes, stepped.1)[i
                    - stepped.0.len()]);
            }
        }
    }
}

/// Law: the scanner never emits a token whose value crosses two or more
/// flush points. Every token's value is exactly one contiguous
/// pending-slice interval of the input buffer.
pub proof fn lemma_token_values_contiguous(bytes: Seq<u8>)
    ensures
        forall|i: int|
            0 <= i < scan_spec(bytes).len() ==> is_contiguous_slice(
                bytes,
                (#[trigger] scan_spec(bytes)[i]).value,
            ),
{
    lemma_scan_from_slices(bytes, init_state(0, 0));
}

/// Law: scanning is a pure function of the byte buffer. Two passes over
/// equal buffers emit equal token streams, so running the scanner twice
/// on the same bytes gives identical token sequences: no hidden mutable
/// state leaks between runs.
pub proof fn lemma_scan_deterministic(b1: Seq<u8>, b2: Seq<u8>)
    requires
        b1 == b2,
    ensures
        scan_spec(b1) == scan_spec(b2),
{
}

/// The executable tokens carry exactly the raw token stream: same
/// length, same kinds, and each value the UTF-8 decoding of the raw
/// value slice (which is then valid UTF-8).
pub open spec fn tokens_match(raw: Seq<RawToken>, toks: Seq<Token>) -> bool {
    &&& toks.len() == raw.len()
    &&& (forall|i: int|
        0 <= i < raw.len() ==> valid_utf8(#[trigger] raw[i].value) && toks[i].tokenizer
            == raw[i].kind && toks[i].value@ == decode_utf8(raw[i].value))
}

/// Extending matching streams by one matching token (or by none on both
/// sides) keeps them matching.
proof fn lemma_match_extend(
    raw: Seq<RawToken>,
    toks0: Seq<Token>,
    head: Seq<RawToken>,
    toks1: Seq<Token>,
)
    requires
        tokens_match(raw, toks0),
        head.len() <= 1,
        toks1.len() == toks0.len() + head.len(),
        forall|j: int| 0 <= j < toks0.len() ==> toks1[j] == #[trigger] toks0[j],
        head.len() == 1 ==> valid_utf8(head[0].value) && toks1.last().tokenizer == head[0].kind
            && toks1.last().value@ == decode_utf8(head[0].value),
    ensures
        tokens_match(raw + head, toks1),
{
    let combined = raw + head;
    assert forall|i: int|
        0 <= i < combined.len() implies valid_utf8(#[trigger] combined[i].value)
        && toks1[i].tokenizer == combined[i].kind && toks1[i].value@ == decode_utf8(
        combined[i].value,
    ) by {
        if i < raw.len() {
            assert(combined[i] == raw[i]);
            assert(valid_utf8(raw[i].value));
            assert(toks1[i] == toks0[i]);
        } else {
            assert(combined[i] == head[0]);
            assert(i == toks1.len() - 1);
            assert(toks1[i] == toks1.last());
        }
    }
}

/// Concatenations place the head's one token right after what was
/// already emitted; when that token's value is not valid UTF-8, not
/// every token of the whole stream is valid.
proof fn lemma_invalid_at(
    full: Seq<RawToken>,
    emitted: Seq<RawToken>,
    head: Seq<RawToken>,
    rest: Seq<RawToken>,
)
    requires
        full == emitted + (head + rest),
        head.len() == 1,
        !valid_utf8(head[0].value),
    ensures
        !(forall|i: int| 0 <= i < full.len() ==> valid_utf8(#[trigger] full[i].value)),
{
    assert(full[emitted.len() as int] == head[0]);
}

} // verus!
