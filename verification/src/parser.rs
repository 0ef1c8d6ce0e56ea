//! Escape-sequence parser: turns a raw byte stream (UTF-8 text interleaved
//! with ANSI/VT control sequences) into a stream of discrete terminal
//! commands.
//!
//! The parser is a small state machine over decoded characters, layered on an
//! incremental UTF-8 decoder so that both multi-byte characters and escape
//! sequences may be split across separate `advance` calls. Bytes that do not
//! form valid UTF-8 are replaced by U+FFFD, one replacement per maximal
//! ill-formed subpart.
use vstd::prelude::*;

verus! {

/// One terminal command, as recognized from the input stream.
///
/// This set is closed: any escape sequence not mapped to one of these is
/// consumed without producing a command.
#[derive(Debug, Clone, Copy, PartialEq, Eq)]
pub enum TermCmd {
    /// Write this character at the cursor and advance the column.
    PutChar(char),
    /// Move the cursor to column 0.
    CarriageReturn,
    /// Move the cursor down one row, keeping the column.
    LineFeed,
    /// Move cursor up this many lines.
    CursorUp(u8),
    /// Move cursor down this many lines.
    CursorDown(u8),
    /// Move cursor left this many columns.
    CursorLeft(u8),
    /// Move cursor right this many columns.
    CursorRight(u8),
    /// Beginning of line, this many lines down.
    CursorCrDown(u8),
    /// Beginning of line, this many lines up.
    CursorCrUp(u8),
    /// Set the cursor to the absolute, zero-based position (x, y).
    CursorSet { x: u8, y: u8 },
    /// Erase from the cursor to the end of the line.
    EraseFromCursorToEol,
    /// Clear the screen, in the manner specified by the argument.
    Clear(u8),
    /// Begin synchronized update.
    BeginSyncUpdate,
    /// End synchronized update.
    EndSyncUpdate,
}

/// The parser's control state.
#[derive(Debug, Clone, Copy, PartialEq, Eq)]
pub enum Status {
    /// Plain text; no escape in progress.
    Init,
    /// An ESC byte was seen.
    Esc,
    /// `ESC [` was seen: collecting a control sequence.
    ControlSeqStart,
}

/// Mathematical state of the parser: control state, accumulated parameter
/// bytes, and the bytes of a not-yet-complete multi-byte character.
#[verifier::ext_equal]
pub struct ParserView {
    /// Control state.
    pub status: Status,
    /// Parameter bytes collected since `ESC [`.
    pub params: Seq<u8>,
    /// Bytes of an in-progress multi-byte UTF-8 character.
    pub pending: Seq<u8>,
}

/// The parser's initial state.
pub open spec fn parser_init() -> ParserView {
    ParserView { status: Status::Init, params: Seq::empty(), pending: Seq::empty() }
}

// ---------------------------------------------------------------------------
// UTF-8
// ---------------------------------------------------------------------------

/// Length of the encoded sequence introduced by lead byte `b0`,
/// or 0 when `b0` cannot begin a sequence.
pub open spec fn utf8_seq_len(b0: u8) -> int {
    if b0 < 0x80 {
        1
    } else if 0xC2 <= b0 && b0 <= 0xDF {
        2
    } else if 0xE0 <= b0 && b0 <= 0xEF {
        3
    } else if 0xF0 <= b0 && b0 <= 0xF4 {
        4
    } else {
        0
    }
}

/// Whether `b` is valid as the `i`-th byte (1-based continuation index) of a
/// sequence led by `b0`. The first continuation has narrowed ranges after
/// 0xE0, 0xED, 0xF0 and 0xF4, which excludes overlong forms, surrogates and
/// values above 0x10FFFF.
pub open spec fn cont_byte_ok(b0: u8, i: int, b: u8) -> bool {
    if i == 1 {
        if b0 == 0xE0 {
            0xA0 <= b && b <= 0xBF
        } else if b0 == 0xED {
            0x80 <= b && b <= 0x9F
        } else if b0 == 0xF0 {
            0x90 <= b && b <= 0xBF
        } else if b0 == 0xF4 {
            0x80 <= b && b <= 0x8F
        } else {
            0x80 <= b && b <= 0xBF
        }
    } else {
        0x80 <= b && b <= 0xBF
    }
}

/// `p` is a proper, so far valid, prefix of some multi-byte encoding.
pub open spec fn utf8_prefix_ok(p: Seq<u8>) -> bool {
    p.len() == 0 || {
        &&& utf8_seq_len(p[0]) >= 2
        &&& p.len() < utf8_seq_len(p[0])
        &&& forall|i: int| 1 <= i < p.len() ==> cont_byte_ok(p[0], i, #[trigger] p[i])
    }
}

/// `s` is one complete, valid UTF-8 encoding.
pub open spec fn utf8_complete(s: Seq<u8>) -> bool {
    &&& s.len() >= 1
    &&& s.len() == utf8_seq_len(s[0])
    &&& forall|i: int| 1 <= i < s.len() ==> cont_byte_ok(s[0], i, #[trigger] s[i])
}

/// The code point encoded by a complete sequence.
pub open spec fn utf8_value(s: Seq<u8>) -> int {
    if s.len() == 1 {
        s[0] as int
    } else if s.len() == 2 {
        (s[0] - 0xC0) * 0x40 + (s[1] - 0x80)
    } else if s.len() == 3 {
        (s[0] - 0xE0) * 0x1000 + (s[1] - 0x80) * 0x40 + (s[2] - 0x80)
    } else {
        (s[0] - 0xF0) * 0x40000 + (s[1] - 0x80) * 0x1000 + (s[2] - 0x80) * 0x40 + (s[3] - 0x80)
    }
}

/// Unicode scalar values: code points minus the surrogate range.
pub open spec fn is_scalar_value(u: int) -> bool {
    (0 <= u && u < 0xD800) || (0xE000 <= u && u <= 0x10FFFF)
}

/// The character encoded by a complete, valid sequence.
pub open spec fn utf8_char(s: Seq<u8>) -> char {
    utf8_value(s) as char
}

/// A complete, valid sequence encodes a Unicode scalar value.
pub proof fn lemma_utf8_value_scalar(s: Seq<u8>)
    requires
        utf8_complete(s),
    ensures
        is_scalar_value(utf8_value(s)),
{
    if s.len() == 2 {
        assert(cont_byte_ok(s[0], 1, s[1]));
    } else if s.len() == 3 {
        assert(cont_byte_ok(s[0], 1, s[1]));
        assert(cont_byte_ok(s[0], 2, s[2]));
    } else if s.len() == 4 {
        assert(cont_byte_ok(s[0], 1, s[1]));
        assert(cont_byte_ok(s[0], 2, s[2]));
        assert(cont_byte_ok(s[0], 3, s[3]));
    }
}

// ---------------------------------------------------------------------------
// Numeric parameters
// ---------------------------------------------------------------------------

/// Index of the first `;` at or after `i`, or `s.len()` when there is none.
pub open spec fn find_semi(s: Seq<u8>, i: int) -> int
    decreases s.len() - i,
{
    if i < 0 || i >= s.len() {
        s.len() as int
    } else if s[i] == 0x3B {
        i
    } else {
        find_semi(s, i + 1)
    }
}

/// The decimal value of a digit string.
pub open spec fn dec_value(s: Seq<u8>) -> int
    decreases s.len(),
{
    if s.len() == 0 {
        0
    } else {
        dec_value(s.drop_last()) * 10 + (s.last() - 0x30)
    }
}

/// All bytes are ASCII digits.
pub open spec fn all_digits(s: Seq<u8>) -> bool {
    forall|i: int| 0 <= i < s.len() ==> 0x30 <= #[trigger] s[i] && s[i] <= 0x39
}

/// A parameter field parsed as an unsigned 8-bit decimal number:
/// `None` when empty, non-numeric, or out of range.
pub open spec fn parse_u8_digits(s: Seq<u8>) -> Option<u8> {
    if s.len() >= 1 && all_digits(s) && dec_value(s) <= 255 {
        Some(dec_value(s) as u8)
    } else {
        None
    }
}

/// The first `;`-separated field of the parameter bytes.
pub open spec fn first_field(s: Seq<u8>) -> Seq<u8> {
    s.subrange(0, find_semi(s, 0))
}

/// The first field as a number, or `d` when it does not parse.
pub open spec fn first_param_or(s: Seq<u8>, d: u8) -> u8 {
    match parse_u8_digits(first_field(s)) {
        Some(v) => v,
        None => d,
    }
}

/// The second field as a number, or `d` when absent or unparsable.
pub open spec fn second_param_or(s: Seq<u8>, d: u8) -> u8 {
    let j = find_semi(s, 0);
    if j >= s.len() {
        d
    } else {
        match parse_u8_digits(s.subrange(j + 1, find_semi(s, j + 1))) {
            Some(v) => v,
            None => d,
        }
    }
}

/// The literal private-mode parameter text `?2026` of synchronized updates.
pub open spec fn sync_update_params() -> Seq<u8> {
    seq![0x3Fu8, 0x32u8, 0x30u8, 0x32u8, 0x36u8]
}

// ---------------------------------------------------------------------------
// The state machine over decoded characters
// ---------------------------------------------------------------------------

/// The commands selected by terminator byte `c` with parameter bytes `params`.
pub open spec fn csi_cmds(c: char, params: Seq<u8>) -> Seq<TermCmd> {
    if c == 'm' {
        Seq::empty()
    } else if c == 'K' {
        seq![TermCmd::EraseFromCursorToEol]
    } else if c == 'A' {
        seq![TermCmd::CursorUp(first_param_or(params, 1))]
    } else if c == 'B' {
        seq![TermCmd::CursorDown(first_param_or(params, 1))]
    } else if c == 'C' {
        seq![TermCmd::CursorRight(first_param_or(params, 1))]
    } else if c == 'D' {
        seq![TermCmd::CursorLeft(first_param_or(params, 1))]
    } else if c == 'E' {
        seq![TermCmd::CursorCrDown(first_param_or(params, 1))]
    } else if c == 'F' {
        seq![TermCmd::CursorCrUp(first_param_or(params, 1))]
    } else if c == 'H' {
        seq![TermCmd::CursorSet { x: first_param_or(params, 1), y: second_param_or(params, 1) }]
    } else if c == 'J' {
        seq![TermCmd::Clear(first_param_or(params, 2))]
    } else if c == 'h' {
        if params == sync_update_params() {
            seq![TermCmd::BeginSyncUpdate]
        } else {
            Seq::empty()
        }
    } else if c == 'l' {
        if params == sync_update_params() {
            seq![TermCmd::EndSyncUpdate]
        } else {
            Seq::empty()
        }
    } else {
        Seq::empty()
    }
}

/// One decoded character driven through the control-state machine.
/// Unexpected bytes after ESC return the machine to `Init` so that a
/// misparse cannot cascade; inside a control sequence, bytes outside the
/// parameter and terminator ranges are consumed without effect.
pub open spec fn char_step(v: ParserView, c: char) -> (ParserView, Seq<TermCmd>) {
    match v.status {
        Status::Init => {
            if c == '\u{1b}' {
                (ParserView { status: Status::Esc, ..v }, Seq::empty())
            } else if c == '\r' {
                (v, seq![TermCmd::CarriageReturn])
            } else if c == '\n' {
                (v, seq![TermCmd::LineFeed])
            } else {
                (v, seq![TermCmd::PutChar(c)])
            }
        },
        Status::Esc => {
            if c == '[' {
                (ParserView { status: Status::ControlSeqStart, ..v }, Seq::empty())
            } else {
                (ParserView { status: Status::Init, ..v }, Seq::empty())
            }
        },
        Status::ControlSeqStart => {
            if 0x30 <= c as int && c as int <= 0x3F {
                (ParserView { params: v.params.push(c as u8), ..v }, Seq::empty())
            } else if 0x40 <= c as int && c as int <= 0x7E {
                (
                    ParserView { status: Status::Init, params: Seq::empty(), ..v },
                    csi_cmds(c, v.params),
                )
            } else {
                (v, Seq::empty())
            }
        },
    }
}

/// One byte taken with no multi-byte character in progress: ASCII is a
/// character of its own, a valid lead byte opens a pending sequence, and
/// anything else is an ill-formed subpart replaced by U+FFFD.
pub open spec fn fresh_byte(v: ParserView, b: u8) -> (ParserView, Seq<TermCmd>) {
    if b < 0x80 {
        char_step(v, b as char)
    } else if utf8_seq_len(b) >= 2 {
        (ParserView { pending: seq![b], ..v }, Seq::empty())
    } else {
        char_step(v, '\u{fffd}')
    }
}

/// One input byte taken by the parser.
pub open spec fn parser_step(v: ParserView, b: u8) -> (ParserView, Seq<TermCmd>) {
    if v.pending.len() == 0 {
        fresh_byte(v, b)
    } else if cont_byte_ok(v.pending[0], v.pending.len() as int, b) {
        if v.pending.len() + 1 == utf8_seq_len(v.pending[0]) {
            char_step(ParserView { pending: Seq::empty(), ..v }, utf8_char(v.pending.push(b)))
        } else {
            (ParserView { pending: v.pending.push(b), ..v }, Seq::empty())
        }
    } else {
        // The pending bytes are a maximal ill-formed subpart; `b` starts over.
        let after_replacement = char_step(ParserView { pending: Seq::empty(), ..v }, '\u{fffd}');
        let after_b = fresh_byte(after_replacement.0, b);
        (after_b.0, after_replacement.1 + after_b.1)
    }
}

/// A whole byte sequence taken by the parser, commands in input order.
pub open spec fn parse_bytes(v: ParserView, bytes: Seq<u8>) -> (ParserView, Seq<TermCmd>)
    decreases bytes.len(),
{
    if bytes.len() == 0 {
        (v, Seq::empty())
    } else {
        let first = parser_step(v, bytes[0]);
        let rest = parse_bytes(first.0, bytes.subrange(1, bytes.len() as int));
        (rest.0, first.1 + rest.1)
    }
}

/// Feeding a byte sequence in two parts gives the same final state and the
/// same commands as feeding it whole.
pub proof fn lemma_parse_bytes_concat(v: ParserView, a: Seq<u8>, b: Seq<u8>)
    ensures
        parse_bytes(v, a + b).0 == parse_bytes(parse_bytes(v, a).0, b).0,
        parse_bytes(v, a + b).1 == parse_bytes(v, a).1 + parse_bytes(parse_bytes(v, a).0, b).1,
    decreases a.len(),
{
    if a.len() == 0 {
        assert(a + b =~= b);
        assert(parse_bytes(v, a).1 + parse_bytes(parse_bytes(v, a).0, b).1 =~= parse_bytes(
            v,
            b,
        ).1);
    } else {
        let ab = a + b;
        assert(ab[0] == a[0]);
        let first = parser_step(v, a[0]);
        assert(ab.subrange(1, ab.len() as int) =~= a.subrange(1, a.len() as int) + b);
        lemma_parse_bytes_concat(first.0, a.subrange(1, a.len() as int), b);
        let a1 = a.subrange(1, a.len() as int);
        assert(first.1 + (parse_bytes(first.0, a1).1 + parse_bytes(
            parse_bytes(first.0, a1).0,
            b,
        ).1) =~= (first.1 + parse_bytes(first.0, a1).1) + parse_bytes(
            parse_bytes(first.0, a1).0,
            b,
        ).1);
    }
}

/// One put-character command per plain byte, in order.
pub open spec fn ascii_cmds(bytes: Seq<u8>) -> Seq<TermCmd> {
    Seq::new(bytes.len(), |i: int| TermCmd::PutChar(bytes[i] as char))
}

/// The shape of [`ascii_cmds`], stated for use elsewhere.
pub proof fn lemma_ascii_cmds_index(bytes: Seq<u8>)
    ensures
        ascii_cmds(bytes).len() == bytes.len(),
        forall|i: int|
            0 <= i < bytes.len() ==> #[trigger] ascii_cmds(bytes)[i] == TermCmd::PutChar(
                bytes[i] as char,
            ),
{
}

/// Dropping the last byte drops the last command.
pub proof fn lemma_ascii_cmds_snoc(bytes: Seq<u8>)
    requires
        bytes.len() > 0,
    ensures
        ascii_cmds(bytes) == ascii_cmds(bytes.drop_last()).push(
            TermCmd::PutChar(bytes.last() as char),
        ),
{
    assert(ascii_cmds(bytes) =~= ascii_cmds(bytes.drop_last()).push(
        TermCmd::PutChar(bytes.last() as char),
    ));
}

/// From the initial state, plain printable text (no control characters, no
/// escapes) parses to one put-character command per byte and leaves the
/// parser where it began.
pub proof fn lemma_parse_plain_text(bytes: Seq<u8>)
    requires
        forall|i: int| 0 <= i < bytes.len() ==> 0x20 <= #[trigger] bytes[i] <= 0x7E,
    ensures
        parse_bytes(parser_init(), bytes).0 == parser_init(),
        parse_bytes(parser_init(), bytes).1 == ascii_cmds(bytes),
    decreases bytes.len(),
{
    let v = parser_init();
    if bytes.len() == 0 {
        assert(parse_bytes(v, bytes).1 =~= ascii_cmds(bytes));
    } else {
        let b = bytes[0];
        let c = b as char;
        assert(c as int == b as int);
        assert(c != '\u{1b}' && c != '\r' && c != '\n');
        let step = parser_step(v, b);
        assert(step.0 == v);
        assert(step.1 == seq![TermCmd::PutChar(c)]);
        let tail = bytes.subrange(1, bytes.len() as int);
        assert(forall|i: int| 0 <= i < tail.len() ==> 0x20 <= #[trigger] tail[i] <= 0x7E);
        lemma_parse_plain_text(tail);
        assert(parse_bytes(v, bytes).1 =~= ascii_cmds(bytes));
    }
}

// ---------------------------------------------------------------------------
// The executable parser
// ---------------------------------------------------------------------------

/// Incremental parser for a stream of bytes holding UTF-8 text and ANSI
/// escape sequences. State persists between calls to [`advance`], so both a
/// control sequence and a multi-byte character may be split across calls.
///
/// [`advance`]: Self::advance
#[derive(Debug)]
pub struct AnsiParser {
    status: Status,
    param_bytes: Vec<u8>,
    pending: Vec<u8>,
}

impl View for AnsiParser {
    type V = ParserView;

    closed spec fn view(&self) -> ParserView {
        ParserView { status: self.status, params: self.param_bytes@, pending: self.pending@ }
    }
}

impl Default for AnsiParser {
    fn default() -> (r: Self)
        ensures
            r@ == parser_init(),
    {
        let r = AnsiParser { status: Status::Init, param_bytes: Vec::new(), pending: Vec::new() };
        proof {
            assert(r@ =~= parser_init());
        }
        r
    }
}

/// Relies on `char::from_u32`: `Some` exactly on Unicode scalar values,
/// yielding the character with that code point.
#[verifier::external_body]
fn char_from_u32(u: u32) -> (r: Option<char>)
    ensures
        (r is Some) <==> is_scalar_value(u as int),
        r matches Some(c) ==> c as int == u as int,
{
    char::from_u32(u)
}

/// Sequence length selected by a lead byte; 0 for a byte that cannot lead.
fn utf8_len_of(b0: u8) -> (r: usize)
    ensures
        r as int == utf8_seq_len(b0),
{
    if b0 < 0x80 {
        1
    } else if 0xC2 <= b0 && b0 <= 0xDF {
        2
    } else if 0xE0 <= b0 && b0 <= 0xEF {
        3
    } else if 0xF0 <= b0 && b0 <= 0xF4 {
        4
    } else {
        0
    }
}

/// Whether `b` may stand at 1-based continuation index `i` after lead `b0`.
fn cont_ok(b0: u8, i: usize, b: u8) -> (r: bool)
    ensures
        r == cont_byte_ok(b0, i as int, b),
{
    if i == 1 {
        if b0 == 0xE0 {
            0xA0 <= b && b <= 0xBF
        } else if b0 == 0xED {
            0x80 <= b && b <= 0x9F
        } else if b0 == 0xF0 {
            0x90 <= b && b <= 0xBF
        } else if b0 == 0xF4 {
            0x80 <= b && b <= 0x8F
        } else {
            0x80 <= b && b <= 0xBF
        }
    } else {
        0x80 <= b && b <= 0xBF
    }
}

/// Index of the first `;` at or after `from`, or the length when none.
fn find_semi_at(s: &Vec<u8>, from: usize) -> (r: usize)
    requires
        from <= s@.len(),
    ensures
        r as int == find_semi(s@, from as int),
        from <= r <= s@.len(),
{
    let mut i: usize = from;
    while i < s.len() && s[i] != 0x3B
        invariant
            from <= i <= s@.len(),
            find_semi(s@, from as int) == find_semi(s@, i as int),
        decreases s@.len() - i,
    {
        i = i + 1;
    }
    i
}

proof fn lemma_dec_value_nonneg(s: Seq<u8>)
    requires
        all_digits(s),
    ensures
        dec_value(s) >= 0,
    decreases s.len(),
{
    if s.len() > 0 {
        assert(all_digits(s.drop_last()));
        lemma_dec_value_nonneg(s.drop_last());
    }
}

/// The value of a digit string is at least the value of any of its prefixes.
proof fn lemma_dec_value_prefix_le(s: Seq<u8>, i: int)
    requires
        all_digits(s),
        0 <= i <= s.len(),
    ensures
        dec_value(s.subrange(0, i)) <= dec_value(s),
    decreases s.len() - i,
{
    if i < s.len() {
        let t = s.subrange(0, i + 1);
        assert(t.drop_last() =~= s.subrange(0, i));
        assert(all_digits(s.subrange(0, i)));
        lemma_dec_value_nonneg(s.subrange(0, i));
        assert(dec_value(t) == dec_value(s.subrange(0, i)) * 10 + (s[i] - 0x30));
        lemma_dec_value_prefix_le(s, i + 1);
    } else {
        assert(s.subrange(0, i) =~= s);
    }
}

/// The bytes in `[from, to)` parsed as an unsigned 8-bit decimal number.
fn parse_digits(s: &Vec<u8>, from: usize, to: usize) -> (r: Option<u8>)
    requires
        from <= to <= s@.len(),
    ensures
        r == parse_u8_digits(s@.subrange(from as int, to as int)),
{
    let ghost f = s@.subrange(from as int, to as int);
    if from == to {
        return None;
    }
    let mut val: u32 = 0;
    let mut i: usize = from;
    while i < to
        invariant
            from <= i <= to <= s@.len(),
            f == s@.subrange(from as int, to as int),
            f.subrange(0, i - from) =~= s@.subrange(from as int, i as int),
            all_digits(f.subrange(0, i - from)),
            val as int == dec_value(f.subrange(0, i - from)),
            val <= 255,
        decreases to - i,
    {
        let b = s[i];
        assert(f[i - from] == b);
        if b < 0x30 || b > 0x39 {
            assert(!all_digits(f));
            return None;
        }
        let v2: u32 = val * 10 + ((b - 0x30) as u32);
        proof {
            let p = f.subrange(0, i - from);
            let p2 = f.subrange(0, i + 1 - from);
            assert(p2.drop_last() =~= p);
            assert(dec_value(p2) == dec_value(p) * 10 + (b - 0x30));
        }
        if v2 > 255 {
            proof {
                if all_digits(f) {
                    lemma_dec_value_prefix_le(f, i + 1 - from);
                }
            }
            return None;
        }
        val = v2;
        i = i + 1;
    }
    assert(f.subrange(0, i - from) =~= f);
    Some(val as u8)
}

/// The first parameter field as a number, or `default`.
fn first_param(params: &Vec<u8>, default: u8) -> (r: u8)
    ensures
        r == first_param_or(params@, default),
{
    let j = find_semi_at(params, 0);
    match parse_digits(params, 0, j) {
        Some(v) => v,
        None => default,
    }
}

/// The second parameter field as a number, or `default`.
fn second_param(params: &Vec<u8>, default: u8) -> (r: u8)
    ensures
        r == second_param_or(params@, default),
{
    let j = find_semi_at(params, 0);
    if j >= params.len() {
        default
    } else {
        let j2 = find_semi_at(params, j + 1);
        match parse_digits(params, j + 1, j2) {
            Some(v) => v,
            None => default,
        }
    }
}

/// Whether the parameter bytes are the literal text `?2026`.
fn params_are_sync(params: &Vec<u8>) -> (r: bool)
    ensures
        r == (params@ == sync_update_params()),
{
    if params.len() == 5 && params[0] == 0x3F && params[1] == 0x32 && params[2] == 0x30
        && params[3] == 0x32 && params[4] == 0x36 {
        proof {
            assert(params@ =~= sync_update_params());
        }
        true
    } else {
        proof {
            if params@.len() == 5 {
                assert(params@ != sync_update_params() || (params@[0] == 0x3F && params@[1] == 0x32
                    && params@[2] == 0x30 && params@[3] == 0x32 && params@[4] == 0x36));
            }
        }
        false
    }
}

/// Append the commands selected by terminator `c` to `out`.
fn emit_csi(c: char, params: &Vec<u8>, out: &mut Vec<TermCmd>)
    ensures
        final(out)@ == old(out)@ + csi_cmds(c, params@),
{
    if c == 'm' {
    } else if c == 'K' {
        out.push(TermCmd::EraseFromCursorToEol);
    } else if c == 'A' {
        out.push(TermCmd::CursorUp(first_param(params, 1)));
    } else if c == 'B' {
        out.push(TermCmd::CursorDown(first_param(params, 1)));
    } else if c == 'C' {
        out.push(TermCmd::CursorRight(first_param(params, 1)));
    } else if c == 'D' {
        out.push(TermCmd::CursorLeft(first_param(params, 1)));
    } else if c == 'E' {
        out.push(TermCmd::CursorCrDown(first_param(params, 1)));
    } else if c == 'F' {
        out.push(TermCmd::CursorCrUp(first_param(params, 1)));
    } else if c == 'H' {
        let x = first_param(params, 1);
        let y = second_param(params, 1);
        out.push(TermCmd::CursorSet { x, y });
    } else if c == 'J' {
        out.push(TermCmd::Clear(first_param(params, 2)));
    } else if c == 'h' {
        if params_are_sync(params) {
            out.push(TermCmd::BeginSyncUpdate);
        }
    } else if c == 'l' {
        if params_are_sync(params) {
            out.push(TermCmd::EndSyncUpdate);
        }
    }
    proof {
        assert(final(out)@ =~= old(out)@ + csi_cmds(c, params@));
    }
}

impl AnsiParser {
    /// The parser's internal invariant: any pending bytes form a valid
    /// prefix of a multi-byte character.
    pub open spec fn wf(&self) -> bool {
        utf8_prefix_ok(self@.pending)
    }

    /// One decoded character driven through the control-state machine.
    fn step_char(&mut self, c: char, out: &mut Vec<TermCmd>)
        ensures
            final(self)@ == char_step(old(self)@, c).0,
            final(out)@ == old(out)@ + char_step(old(self)@, c).1,
            final(self)@.pending == old(self)@.pending,
    {
        match self.status {
            Status::Init => {
                if c == '\u{1b}' {
                    self.status = Status::Esc;
                } else if c == '\r' {
                    out.push(TermCmd::CarriageReturn);
                } else if c == '\n' {
                    out.push(TermCmd::LineFeed);
                } else {
                    out.push(TermCmd::PutChar(c));
                }
            },
            Status::Esc => {
                if c == '[' {
                    self.status = Status::ControlSeqStart;
                } else {
                    self.status = Status::Init;
                }
            },
            Status::ControlSeqStart => {
                let u = c as u32;
                if 0x30 <= u && u <= 0x3F {
                    self.param_bytes.push(u as u8);
                } else if 0x40 <= u && u <= 0x7E {
                    emit_csi(c, &self.param_bytes, out);
                    self.param_bytes.clear();
                    self.status = Status::Init;
                }
            },
        }
        proof {
            assert(final(self)@ =~= char_step(old(self)@, c).0);
            assert(final(out)@ =~= old(out)@ + char_step(old(self)@, c).1);
        }
    }

    /// One byte taken with no multi-byte character pending.
    fn fresh_byte_step(&mut self, b: u8, out: &mut Vec<TermCmd>)
        requires
            old(self)@.pending.len() == 0,
        ensures
            final(self)@ == fresh_byte(old(self)@, b).0,
            final(out)@ == old(out)@ + fresh_byte(old(self)@, b).1,
            utf8_prefix_ok(final(self)@.pending),
    {
        if b < 0x80 {
            self.step_char(b as char, out);
        } else {
            let need = utf8_len_of(b);
            if need >= 2 {
                self.pending.push(b);
                proof {
                    assert(final(self)@ =~= fresh_byte(old(self)@, b).0);
                    assert(final(out)@ =~= old(out)@ + fresh_byte(old(self)@, b).1);
                }
            } else {
                self.step_char('\u{fffd}', out);
            }
        }
    }

    /// Complete the pending multi-byte character with final byte `b`.
    fn complete_char(&mut self, b: u8) -> (c: char)
        requires
            utf8_prefix_ok(old(self)@.pending),
            old(self)@.pending.len() >= 1,
            cont_byte_ok(old(self)@.pending[0], old(self)@.pending.len() as int, b),
            old(self)@.pending.len() + 1 == utf8_seq_len(old(self)@.pending[0]),
        ensures
            c == utf8_char(old(self)@.pending.push(b)),
            final(self)@ == (ParserView { pending: Seq::empty(), ..old(self)@ }),
    {
        let ghost s = old(self)@.pending.push(b);
        let b0 = self.pending[0];
        let n = self.pending.len();
        let cp: u32;
        if n == 1 {
            cp = (b0 as u32 - 0xC0) * 0x40 + (b as u32 - 0x80);
        } else if n == 2 {
            let b1 = self.pending[1];
            cp = (b0 as u32 - 0xE0) * 0x1000 + (b1 as u32 - 0x80) * 0x40 + (b as u32 - 0x80);
        } else {
            let b1 = self.pending[1];
            let b2 = self.pending[2];
            cp = (b0 as u32 - 0xF0) * 0x40000 + (b1 as u32 - 0x80) * 0x1000 + (b2 as u32 - 0x80)
                * 0x40 + (b as u32 - 0x80);
        }
        proof {
            assert(utf8_complete(s));
            lemma_utf8_value_scalar(s);
            assert(cp as int == utf8_value(s));
        }
        self.pending.clear();
        proof {
            assert(final(self)@ =~= (ParserView { pending: Seq::empty(), ..old(self)@ }));
        }
        match char_from_u32(cp) {
            Some(c) => {
                proof {
                    assert(c as int == cp as int);
                    assert(utf8_char(s) as int == utf8_value(s));
                }
                c
            },
            None => '\u{fffd}',
        }
    }

    /// One input byte taken by the parser.
    fn step_byte(&mut self, b: u8, out: &mut Vec<TermCmd>)
        requires
            utf8_prefix_ok(old(self)@.pending),
        ensures
            final(self)@ == parser_step(old(self)@, b).0,
            final(out)@ == old(out)@ + parser_step(old(self)@, b).1,
            utf8_prefix_ok(final(self)@.pending),
    {
        if self.pending.len() == 0 {
            self.fresh_byte_step(b, out);
        } else {
            let b0 = self.pending[0];
            let n = self.pending.len();
            if cont_ok(b0, n, b) {
                let need = utf8_len_of(b0);
                if n + 1 == need {
                    let c = self.complete_char(b);
                    self.step_char(c, out);
                } else {
                    self.pending.push(b);
                    proof {
                        let p = final(self)@.pending;
                        assert(forall|i: int|
                            1 <= i < p.len() ==> cont_byte_ok(p[0], i, #[trigger] p[i]));
                        assert(final(self)@ =~= parser_step(old(self)@, b).0);
                        assert(final(out)@ =~= old(out)@ + parser_step(old(self)@, b).1);
                    }
                }
            } else {
                self.pending.clear();
                let ghost mid = ParserView { pending: Seq::empty(), ..old(self)@ };
                assert(self@ =~= mid);
                self.step_char('\u{fffd}', out);
                self.fresh_byte_step(b, out);
                proof {
                    let s1 = char_step(mid, '\u{fffd}');
                    let s2 = fresh_byte(s1.0, b);
                    assert(final(out)@ =~= old(out)@ + (s1.1 + s2.1));
                }
            }
        }
    }

    /// Processes the given bytes to completion, returning the recognized
    /// commands in the order encountered. Malformed or unsupported input
    /// never fails: unrecognized sequences are consumed without producing a
    /// command, and ill-formed UTF-8 is replaced by U+FFFD.
    pub fn advance(&mut self, bytes: &[u8]) -> (cmds: Vec<TermCmd>)
        requires
            old(self).wf(),
        ensures
            final(self)@ == parse_bytes(old(self)@, bytes@).0,
            cmds@ == parse_bytes(old(self)@, bytes@).1,
            final(self).wf(),
    {
        let mut out: Vec<TermCmd> = Vec::new();
        let mut i: usize = 0;
        proof {
            assert(bytes@.subrange(0, bytes@.len() as int) =~= bytes@);
            assert(Seq::<TermCmd>::empty() + parse_bytes(self@, bytes@).1 =~= parse_bytes(
                self@,
                bytes@,
            ).1);
        }
        while i < bytes.len()
            invariant
                i <= bytes@.len(),
                utf8_prefix_ok(self@.pending),
                parse_bytes(old(self)@, bytes@).0 == parse_bytes(
                    self@,
                    bytes@.subrange(i as int, bytes@.len() as int),
                ).0,
                parse_bytes(old(self)@, bytes@).1 == out@ + parse_bytes(
                    self@,
                    bytes@.subrange(i as int, bytes@.len() as int),
                ).1,
            decreases bytes@.len() - i,
        {
            let ghost pre = self@;
            let ghost pre_out = out@;
            let ghost rest = bytes@.subrange(i as int, bytes@.len() as int);
            assert(rest[0] == bytes@[i as int]);
            self.step_byte(bytes[i], &mut out);
            proof {
                assert(rest.subrange(1, rest.len() as int) =~= bytes@.subrange(
                    i + 1,
                    bytes@.len() as int,
                ));
                let first = parser_step(pre, bytes@[i as int]);
                let tail = parse_bytes(self@, bytes@.subrange(i + 1, bytes@.len() as int));
                assert(pre_out + (first.1 + tail.1) =~= (pre_out + first.1) + tail.1);
            }
            i = i + 1;
        }
        proof {
            assert(bytes@.subrange(i as int, bytes@.len() as int) =~= Seq::<u8>::empty());
            assert(out@ + Seq::<TermCmd>::empty() =~= out@);
        }
        out
    }
}

} // verus!
