use vstd::prelude::*;
use vstd::string::StrSliceExecFns;

verus! {

/// A region of the source text, as byte offsets: `lo` inclusive, `hi` exclusive.
#[derive(Clone, Copy, Debug, PartialEq, Eq, Structural)]
pub struct Span {
    pub lo: usize,
    pub hi: usize,
}

/// A 1-indexed line and column; the column counts characters, not bytes.
#[derive(Clone, Copy, Debug, PartialEq, Eq, Structural)]
pub struct Location {
    pub line: usize,
    pub col: usize,
}

/// One finding, located in the source text.
#[derive(Clone, Debug)]
pub struct Diagnostic {
    pub location: Location,
    pub message: String,
    pub code: String,
    pub line_src: String,
    pub snippet_length: usize,
}

/// What a diagnostic says, as mathematical values.
pub struct DiagnosticView {
    pub location: Location,
    pub message: Seq<char>,
    pub code: Seq<char>,
    pub line_src: Seq<char>,
    pub snippet_length: nat,
}

impl View for Diagnostic {
    type V = DiagnosticView;

    open spec fn view(&self) -> DiagnosticView {
        DiagnosticView {
            location: self.location,
            message: self.message@,
            code: self.code@,
            line_src: self.line_src@,
            snippet_length: self.snippet_length as nat,
        }
    }
}

/// Number of bytes that `c` takes in UTF-8.
pub open spec fn utf8_width(c: char) -> nat {
    if (c as u32) < 0x80 {
        1
    } else if (c as u32) < 0x800 {
        2
    } else if (c as u32) < 0x10000 {
        3
    } else {
        4
    }
}

/// Byte offset at which character `i` of `t` starts (the byte length of `t[..i]`).
pub open spec fn byte_offset(t: Seq<char>, i: int) -> nat
    decreases i,
{
    if i <= 0 || i > t.len() {
        0
    } else {
        byte_offset(t, i - 1) + utf8_width(t[i - 1])
    }
}

/// Byte length of the whole text.
pub open spec fn text_bytes(t: Seq<char>) -> nat {
    byte_offset(t, t.len() as int)
}

/// From character `i` on, the index of the character that holds byte offset `o`
/// (the first character that does not end at or before `o`).
pub open spec fn char_index_from(t: Seq<char>, o: nat, i: int) -> int
    decreases t.len() - i,
{
    if 0 <= i < t.len() && byte_offset(t, i + 1) <= o {
        char_index_from(t, o, i + 1)
    } else {
        i
    }
}

/// Index of the character that holds byte offset `o`; a multi-byte character is
/// never split.
pub open spec fn char_index(t: Seq<char>, o: nat) -> int {
    char_index_from(t, o, 0)
}

/// Number of line feeds in `t[..i]`.
pub open spec fn newlines_before(t: Seq<char>, i: int) -> nat
    decreases i,
{
    if i <= 0 || i > t.len() {
        0
    } else {
        newlines_before(t, i - 1) + if t[i - 1] == '\n' { 1nat } else { 0nat }
    }
}

/// Index of the first character of the line that holds character `i`.
pub open spec fn line_start(t: Seq<char>, i: int) -> int
    decreases i,
{
    if i <= 0 || i > t.len() {
        0
    } else if t[i - 1] == '\n' {
        i
    } else {
        line_start(t, i - 1)
    }
}

/// Index of the line feed that ends the line holding character `i`, or the
/// text's length when no line feed follows.
pub open spec fn line_end(t: Seq<char>, i: int) -> int
    decreases t.len() - i,
{
    if i < 0 || i >= t.len() {
        t.len() as int
    } else if t[i] == '\n' {
        i
    } else {
        line_end(t, i + 1)
    }
}

/// The diagnostic for a finding at byte offset `o` of `t`, with its code and message.
pub open spec fn diagnostic_at(t: Seq<char>, o: nat, code: Seq<char>, message: Seq<char>) -> DiagnosticView {
    let i = char_index(t, o);
    let ls = line_start(t, i);
    let le = line_end(t, i);
    DiagnosticView {
        location: Location {
            line: (newlines_before(t, i) + 1) as usize,
            col: (i - ls + 1) as usize,
        },
        message,
        code,
        line_src: t.subrange(ls, le),
        snippet_length: (byte_offset(t, le) - o) as nat,
    }
}

/// A text whose byte length fits in `isize`, as that of every Rust string does.
pub open spec fn text_fits(t: Seq<char>) -> bool {
    text_bytes(t) <= isize::MAX
}

pub(crate) proof fn lemma_byte_offset_monotonic(t: Seq<char>, i: int, j: int)
    requires
        0 <= i <= j <= t.len(),
    ensures
        byte_offset(t, i) <= byte_offset(t, j),
        byte_offset(t, j) - byte_offset(t, i) >= j - i,
    decreases j - i,
{
    if i < j {
        lemma_byte_offset_monotonic(t, i, j - 1);
    }
}

proof fn lemma_char_index_bounds(t: Seq<char>, o: nat, i: int)
    requires
        0 <= i <= t.len(),
        byte_offset(t, i) <= o,
    ensures
        i <= char_index_from(t, o, i) <= t.len(),
        byte_offset(t, char_index_from(t, o, i)) <= o,
    decreases t.len() - i,
{
    if i < t.len() && byte_offset(t, i + 1) <= o {
        lemma_char_index_bounds(t, o, i + 1);
    }
}

proof fn lemma_line_bounds(t: Seq<char>, i: int)
    requires
        0 <= i <= t.len(),
    ensures
        0 <= line_start(t, i) <= i,
        i <= line_end(t, i) <= t.len(),
        i - line_start(t, i) <= newlines_before(t, i) + i,
    decreases t.len() - i,
{
    lemma_line_start_props(t, i);
    if i < t.len() && t[i] != '\n' {
        lemma_line_bounds(t, i + 1);
    }
}

proof fn lemma_line_start_props(t: Seq<char>, i: int)
    requires
        0 <= i <= t.len(),
    ensures
        0 <= line_start(t, i) <= i,
        line_start(t, i) == 0 || t[line_start(t, i) - 1] == '\n',
        forall|j: int| line_start(t, i) <= j < i ==> t[j] != '\n',
    decreases i,
{
    if i > 0 && t[i - 1] != '\n' {
        lemma_line_start_props(t, i - 1);
    }
}

proof fn lemma_line_end_props(t: Seq<char>, i: int)
    requires
        0 <= i <= t.len(),
    ensures
        i <= line_end(t, i) <= t.len(),
        line_end(t, i) == t.len() || t[line_end(t, i)] == '\n',
        forall|j: int| i <= j < line_end(t, i) ==> t[j] != '\n',
    decreases t.len() - i,
{
    if i < t.len() && t[i] != '\n' {
        lemma_line_end_props(t, i + 1);
    }
}

proof fn lemma_char_index_holds(t: Seq<char>, o: nat, i: int)
    requires
        0 <= i <= t.len(),
        byte_offset(t, i) <= o,
    ensures
        char_index_from(t, o, i) == t.len() || o < byte_offset(t, char_index_from(t, o, i) + 1),
    decreases t.len() - i,
{
    if i < t.len() && byte_offset(t, i + 1) <= o {
        lemma_char_index_holds(t, o, i + 1);
    }
}

/// A diagnostic at byte offset `o` is located where `o` is: its column is the
/// character that holds `o`, its `line_src` is exactly the line holding that
/// character (bounded by line feeds or the ends of the text, with none
/// inside), and its snippet runs no further than the rest of that line from
/// the column on.
pub proof fn lemma_location_correct(t: Seq<char>, o: nat, code: Seq<char>, message: Seq<char>)
    requires
        text_fits(t),
        o <= text_bytes(t),
    ensures
        ({
            let d = diagnostic_at(t, o, code, message);
            let i = char_index(t, o);
            let ls = line_start(t, i);
            let le = line_end(t, i);
            &&& 0 <= ls <= i <= le <= t.len()
            &&& byte_offset(t, i) <= o
            &&& (i < t.len() ==> o < byte_offset(t, i + 1))
            &&& (ls == 0 || t[ls - 1] == '\n')
            &&& (le == t.len() || t[le] == '\n')
            &&& (forall|j: int| ls <= j < le ==> t[j] != '\n')
            &&& d.line_src == t.subrange(ls, le)
            &&& d.location.line == newlines_before(t, i) + 1
            &&& d.location.col == i - ls + 1
            &&& d.snippet_length <= byte_offset(t, le) - byte_offset(t, i)
            &&& d.code == code
            &&& d.message == message
        }),
{
    let i = char_index(t, o);
    lemma_char_index_bounds(t, o, 0);
    lemma_char_index_holds(t, o, 0);
    lemma_line_start_props(t, i);
    lemma_line_end_props(t, i);
    lemma_line_bounds(t, i);
    lemma_byte_offset_monotonic(t, 0, t.len() as int);
    lemma_newlines_bounded(t, i);
    let le = line_end(t, i);
    if le > i {
        lemma_byte_offset_monotonic(t, i + 1, le);
    }
}

proof fn lemma_newlines_bounded(t: Seq<char>, i: int)
    requires
        0 <= i <= t.len(),
    ensures
        newlines_before(t, i) <= i,
    decreases i,
{
    if i > 0 {
        lemma_newlines_bounded(t, i - 1);
    }
}

/// The text as a vector of characters.
pub fn chars_of(s: &str) -> (r: Vec<char>)
    ensures
        r@ == s@,
{
    let n = s.unicode_len();
    let mut r: Vec<char> = Vec::new();
    let mut i: usize = 0;
    while i < n
        invariant
            n == s@.len(),
            i <= n,
            r@ == s@.take(i as int),
        decreases n - i,
    {
        let c = s.get_char(i);
        r.push(c);
        i = i + 1;
        assert(r@ =~= s@.take(i as int));
    }
    assert(r@ =~= s@);
    r
}

/// UTF-8 width of a character, from its code point.
pub(crate) fn width_of(c: char) -> (r: usize)
    ensures
        r == utf8_width(c),
{
    let v = c as u32;
    if v < 0x80 {
        1
    } else if v < 0x800 {
        2
    } else if v < 0x10000 {
        3
    } else {
        4
    }
}

/// Builds the diagnostic for a finding at `span.lo` of the text `source` (whose
/// characters are `text`): its line and column, the whole line without its line
/// feed, and the number of bytes from the finding to the end of that line.
pub fn diagnostic_in(source: &str, text: &Vec<char>, span: Span, code: &str, message: &str) -> (r: Diagnostic)
    requires
        text@ == source@,
        text_fits(text@),
        span.lo <= text_bytes(text@),
    ensures
        r@ == diagnostic_at(text@, span.lo as nat, code@, message@),
        r.line_src@.len() <= text@.len(),
        r.snippet_length <= byte_offset(text@, line_end(text@, char_index(text@, span.lo as nat)))
            - byte_offset(text@, line_start(text@, char_index(text@, span.lo as nat))),
{
    let ghost t = text@;
    let o = span.lo;
    let n = text.len();
    // Find the character holding `o`, counting line feeds on the way.
    let mut i: usize = 0;
    let mut bytes: usize = 0;
    let mut line: usize = 1;
    let mut ls: usize = 0;
    proof {
        lemma_byte_offset_monotonic(t, 0, n as int);
    }
    while i < n && width_of(text[i]) <= o - bytes
        invariant
            t == text@,
            n == t.len(),
            n <= isize::MAX,
            0 <= i <= n,
            bytes == byte_offset(t, i as int),
            bytes <= o,
            char_index_from(t, o as nat, i as int) == char_index(t, o as nat),
            line == newlines_before(t, i as int) + 1,
            ls == line_start(t, i as int),
            line <= i + 1,
        decreases n - i,
    {
        let c = text[i];
        bytes = bytes + width_of(c);
        if c == '\n' {
            ls = i + 1;
            line = line + 1;
        }
        i = i + 1;
    }
    assert(char_index(t, o as nat) == i);
    // Find the end of that line.
    let mut le: usize = i;
    let mut end_bytes: usize = bytes;
    proof {
        lemma_line_bounds(t, i as int);
        lemma_byte_offset_monotonic(t, i as int, t.len() as int);
    }
    while le < n && text[le] != '\n'
        invariant
            t == text@,
            n == t.len(),
            text_fits(t),
            i <= le <= n,
            line_end(t, le as int) == line_end(t, i as int),
            end_bytes == byte_offset(t, le as int),
            bytes == byte_offset(t, i as int),
            bytes <= o,
        decreases n - le,
    {
        proof {
            lemma_byte_offset_monotonic(t, le as int + 1, t.len() as int);
        }
        end_bytes = end_bytes + width_of(text[le]);
        le = le + 1;
    }
    proof {
        lemma_line_bounds(t, i as int);
        lemma_byte_offset_monotonic(t, ls as int, i as int);
        if le > i {
            lemma_byte_offset_monotonic(t, i as int + 1, le as int);
        }
    }
    let snippet = end_bytes - o;
    let col = i - ls + 1;
    let line_src = source.substring_char(ls, le).to_owned();
    Diagnostic {
        location: Location { line, col },
        message: message.to_owned(),
        code: code.to_owned(),
        line_src,
        snippet_length: snippet,
    }
}

} // verus!
