//! ANSI escape-sequence parsing over the library's own style model: a
//! parser that folds SGR sequences into a style value, and helpers that
//! strip or measure text with embedded escape codes. The drawing layer
//! converts these plain style values into its widget toolkit's types.
use vstd::prelude::*;

verus! {

use vstd::string::StrSliceExecFns;
use vstd::string::StringExecFns;

/// A terminal color, as an SGR sequence selects it.
#[derive(Debug, Clone, Copy, PartialEq, Eq, Structural)]
pub enum Color {
    Reset,
    Black,
    Red,
    Green,
    Yellow,
    Blue,
    Magenta,
    Cyan,
    Gray,
    DarkGray,
    LightRed,
    LightGreen,
    LightYellow,
    LightBlue,
    LightMagenta,
    LightCyan,
    White,
    Indexed(u8),
    Rgb(u8, u8, u8),
}

/// A display style accumulated from SGR parameters: optional foreground and
/// background colors plus text attribute flags.
#[derive(Debug, Clone, Copy, PartialEq, Eq, Structural)]
pub struct Style {
    pub fg: Option<Color>,
    pub bg: Option<Color>,
    pub bold: bool,
    pub dim: bool,
    pub italic: bool,
    pub underlined: bool,
    pub slow_blink: bool,
    pub reversed: bool,
    pub hidden: bool,
    pub crossed_out: bool,
}

/// The style with no colors and no attributes set.
pub open spec fn plain_style() -> Style {
    Style {
        fg: None,
        bg: None,
        bold: false,
        dim: false,
        italic: false,
        underlined: false,
        slow_blink: false,
        reversed: false,
        hidden: false,
        crossed_out: false,
    }
}

impl Default for Style {
    fn default() -> (r: Style)
        ensures
            r == plain_style(),
    {
        Style {
            fg: None,
            bg: None,
            bold: false,
            dim: false,
            italic: false,
            underlined: false,
            slow_blink: false,
            reversed: false,
            hidden: false,
            crossed_out: false,
        }
    }
}

/// The escape character that starts an ANSI sequence.
pub open spec fn esc() -> char {
    '\x1b'
}

/// `text` holds at least one escape character.
pub open spec fn has_esc(text: Seq<char>) -> bool {
    exists|i: int| 0 <= i < text.len() && text[i] == esc()
}

/// Whether a pending escape sequence is complete: a CSI sequence (`ESC[`)
/// ends with an ASCII letter, an OSC sequence (`ESC]`) with BEL or ST, any
/// other two-character sequence immediately; overlong sequences are cut
/// off after 32 characters.
pub open spec fn esc_complete(ebuf: Seq<char>) -> bool {
    let n = ebuf.len() as int;
    if n < 2 {
        false
    } else if ebuf[0] == esc() && ebuf[1] == '[' {
        ('a' <= ebuf[n - 1] <= 'z') || ('A' <= ebuf[n - 1] <= 'Z') || n > 32
    } else if ebuf[0] == esc() && ebuf[1] == ']' {
        ebuf[n - 1] == '\x07' || (ebuf[n - 2] == esc() && ebuf[n - 1] == '\\') || n > 32
    } else if n == 2 {
        true
    } else {
        n > 32
    }
}

/// One character's effect on the escape-tracking state: whether a sequence
/// is open, and its pending characters. (What a completed sequence does to
/// the style is not modeled.)
pub open spec fn ansi_step(in_escape: bool, ebuf: Seq<char>, ch: char) -> (bool, Seq<char>) {
    if in_escape {
        let nb = ebuf.push(ch);
        if esc_complete(nb) {
            (false, Seq::empty())
        } else {
            (true, nb)
        }
    } else if ch == esc() {
        (true, seq![esc()])
    } else {
        (false, ebuf)
    }
}

/// Whether the character fed in this state is displayed rather than
/// swallowed by an escape sequence.
pub open spec fn ansi_visible_step(in_escape: bool, ch: char) -> bool {
    !in_escape && ch != esc()
}

/// The displayed characters of `text` fed to a parser in the given state,
/// in their original order.
pub open spec fn visible_chars(text: Seq<char>, in_escape: bool, ebuf: Seq<char>) -> Seq<char>
    decreases text.len(),
{
    if text.len() == 0 {
        Seq::empty()
    } else {
        let head = if ansi_visible_step(in_escape, text[0]) {
            seq![text[0]]
        } else {
            Seq::<char>::empty()
        };
        let st = ansi_step(in_escape, ebuf, text[0]);
        head + visible_chars(text.drop_first(), st.0, st.1)
    }
}

/// Text without an escape character passes through unchanged.
pub proof fn lemma_visible_no_esc(text: Seq<char>, ebuf: Seq<char>)
    requires
        !has_esc(text),
    ensures
        visible_chars(text, false, ebuf) == text,
    decreases text.len(),
{
    if text.len() > 0 {
        assert(text[0] != esc());
        assert(!has_esc(text.drop_first())) by {
            if has_esc(text.drop_first()) {
                let i = choose|i: int|
                    0 <= i < text.drop_first().len() && text.drop_first()[i] == esc();
                assert(text[i + 1] == esc());
            }
        }
        lemma_visible_no_esc(text.drop_first(), ebuf);
        assert(visible_chars(text, false, ebuf) =~= text);
    }
}

/// The displayed characters never include the escape character.
pub proof fn lemma_visible_output_no_esc(text: Seq<char>, in_escape: bool, ebuf: Seq<char>)
    ensures
        !has_esc(visible_chars(text, in_escape, ebuf)),
    decreases text.len(),
{
    if text.len() > 0 {
        let st = ansi_step(in_escape, ebuf, text[0]);
        lemma_visible_output_no_esc(text.drop_first(), st.0, st.1);
        let v = visible_chars(text, in_escape, ebuf);
        let rest = visible_chars(text.drop_first(), st.0, st.1);
        assert forall|i: int| 0 <= i < v.len() implies v[i] != esc() by {
            if ansi_visible_step(in_escape, text[0]) {
                if i > 0 {
                    assert(v[i] == rest[i - 1]);
                }
            } else {
                assert(v[i] == rest[i]);
            }
        }
    }
}

/// Stripping escape sequences is idempotent: the stripped text holds no
/// escape character, so stripping it again changes nothing.
pub proof fn lemma_strip_idempotent(text: Seq<char>)
    ensures
        visible_chars(visible_chars(text, false, Seq::empty()), false, Seq::empty())
            == visible_chars(text, false, Seq::empty()),
{
    lemma_visible_output_no_esc(text, false, Seq::empty());
    lemma_visible_no_esc(visible_chars(text, false, Seq::empty()), Seq::empty());
}

/// Parser state for ANSI escape sequences: the accumulated style, the
/// pending (incomplete) escape sequence, and whether one is open.
#[derive(Debug)]
pub struct AnsiParser {
    current_style: Style,
    escape_buffer: Vec<char>,
    in_escape: bool,
}

impl AnsiParser {
    pub closed spec fn style_spec(self) -> Style {
        self.current_style
    }

    pub closed spec fn in_escape_spec(self) -> bool {
        self.in_escape
    }

    /// The characters of the pending (incomplete) escape sequence.
    pub closed spec fn pending_spec(self) -> Seq<char> {
        self.escape_buffer@
    }

    pub fn new() -> (r: AnsiParser)
        ensures
            r.style_spec() == plain_style(),
            !r.in_escape_spec(),
            r.pending_spec() == Seq::<char>::empty(),
    {
        AnsiParser { current_style: Style::default(), escape_buffer: Vec::new(), in_escape: false }
    }

    /// The style accumulated from the escape sequences parsed so far.
    pub fn current_style(&self) -> (r: Style)
        ensures
            r == self.style_spec(),
    {
        self.current_style
    }

    /// Forgets all accumulated state.
    pub fn reset(&mut self)
        ensures
            final(self).style_spec() == plain_style(),
            !final(self).in_escape_spec(),
            final(self).pending_spec() == Seq::<char>::empty(),
    {
        self.current_style = Style::default();
        self.escape_buffer.clear();
        self.in_escape = false;
    }

    /// Whether the pending escape sequence is complete: a CSI sequence ends
    /// with an ASCII letter, an OSC sequence with BEL or ST, any other
    /// two-character sequence immediately; overlong sequences are cut off.
    fn is_escape_complete(&self) -> (r: bool)
        ensures
            r == esc_complete(self.escape_buffer@),
    {
        let n = self.escape_buffer.len();
        if n < 2 {
            return false;
        }
        if self.escape_buffer[0] == '\x1b' && self.escape_buffer[1] == '[' {
            let last = self.escape_buffer[n - 1];
            return (last >= 'a' && last <= 'z') || (last >= 'A' && last <= 'Z') || n > 32;
        }
        if self.escape_buffer[0] == '\x1b' && self.escape_buffer[1] == ']' {
            let last = self.escape_buffer[n - 1];
            if last == '\x07' {
                return true;
            }
            if n >= 2 && self.escape_buffer[n - 2] == '\x1b' && last == '\\' {
                return true;
            }
            return n > 32;
        }
        if n == 2 {
            return true;
        }
        n > 32
    }

    /// Parses the decimal SGR parameters between `ESC[` and the final `m`,
    /// dropping malformed or out-of-range pieces as the usual engines do.
    fn parse_params(&self) -> (r: Vec<u8>) {
        let mut params: Vec<u8> = Vec::new();
        let n = self.escape_buffer.len();
        if n < 3 {
            return params;
        }
        let mut acc: u32 = 0;
        let mut digits: usize = 0;
        let mut valid = true;
        let mut i: usize = 2;
        while i < n - 1
            invariant
                2 <= i <= n - 1,
                n == self.escape_buffer@.len(),
                n >= 3,
                digits <= i,
                acc <= 0xFFFF,
            decreases n - 1 - i,
        {
            let c = self.escape_buffer[i];
            if c == ';' {
                if valid && digits >= 1 && acc <= 255 {
                    params.push(acc as u8);
                }
                acc = 0;
                digits = 0;
                valid = true;
            } else if c >= '0' && c <= '9' {
                let d = (c as u32) - 48;
                if acc <= 255 {
                    acc = acc * 10 + d;
                }
                digits = digits + 1;
            } else {
                valid = false;
            }
            i = i + 1;
        }
        if valid && digits >= 1 && acc <= 255 {
            params.push(acc as u8);
        }
        params
    }

    /// Folds one run of SGR parameters into the current style; the escape
    /// tracking state is untouched.
    fn apply_sgr_params(&mut self, params: &Vec<u8>)
        ensures
            final(self).escape_buffer@ == old(self).escape_buffer@,
            final(self).in_escape == old(self).in_escape,
    {
        let mut i: usize = 0;
        while i < params.len()
            invariant
                i <= params@.len(),
                self.escape_buffer@ == old(self).escape_buffer@,
                self.in_escape == old(self).in_escape,
            decreases params@.len() - i,
        {
            let code = params[i];
            if code == 0 {
                self.current_style = Style::default();
            } else if code == 1 {
                self.current_style.bold = true;
            } else if code == 2 {
                self.current_style.dim = true;
            } else if code == 3 {
                self.current_style.italic = true;
            } else if code == 4 {
                self.current_style.underlined = true;
            } else if code == 5 {
                self.current_style.slow_blink = true;
            } else if code == 7 {
                self.current_style.reversed = true;
            } else if code == 8 {
                self.current_style.hidden = true;
            } else if code == 9 {
                self.current_style.crossed_out = true;
            } else if code == 21 {
                self.current_style.bold = false;
            } else if code == 22 {
                self.current_style.bold = false;
                self.current_style.dim = false;
            } else if code == 23 {
                self.current_style.italic = false;
            } else if code == 24 {
                self.current_style.underlined = false;
            } else if code == 25 {
                self.current_style.slow_blink = false;
            } else if code == 27 {
                self.current_style.reversed = false;
            } else if code == 28 {
                self.current_style.hidden = false;
            } else if code == 29 {
                self.current_style.crossed_out = false;
            } else if code == 30 {
                self.current_style.fg = Some(Color::Black);
            } else if code == 31 {
                self.current_style.fg = Some(Color::Red);
            } else if code == 32 {
                self.current_style.fg = Some(Color::Green);
            } else if code == 33 {
                self.current_style.fg = Some(Color::Yellow);
            } else if code == 34 {
                self.current_style.fg = Some(Color::Blue);
            } else if code == 35 {
                self.current_style.fg = Some(Color::Magenta);
            } else if code == 36 {
                self.current_style.fg = Some(Color::Cyan);
            } else if code == 37 {
                self.current_style.fg = Some(Color::Gray);
            } else if code == 39 {
                self.current_style.fg = Some(Color::Reset);
            } else if code == 40 {
                self.current_style.bg = Some(Color::Black);
            } else if code == 41 {
                self.current_style.bg = Some(Color::Red);
            } else if code == 42 {
                self.current_style.bg = Some(Color::Green);
            } else if code == 43 {
                self.current_style.bg = Some(Color::Yellow);
            } else if code == 44 {
                self.current_style.bg = Some(Color::Blue);
            } else if code == 45 {
                self.current_style.bg = Some(Color::Magenta);
            } else if code == 46 {
                self.current_style.bg = Some(Color::Cyan);
            } else if code == 47 {
                self.current_style.bg = Some(Color::Gray);
            } else if code == 49 {
                self.current_style.bg = Some(Color::Reset);
            } else if code == 90 {
                self.current_style.fg = Some(Color::DarkGray);
            } else if code == 91 {
                self.current_style.fg = Some(Color::LightRed);
            } else if code == 92 {
                self.current_style.fg = Some(Color::LightGreen);
            } else if code == 93 {
                self.current_style.fg = Some(Color::LightYellow);
            } else if code == 94 {
                self.current_style.fg = Some(Color::LightBlue);
            } else if code == 95 {
                self.current_style.fg = Some(Color::LightMagenta);
            } else if code == 96 {
                self.current_style.fg = Some(Color::LightCyan);
            } else if code == 97 {
                self.current_style.fg = Some(Color::White);
            } else if code == 100 {
                self.current_style.bg = Some(Color::DarkGray);
            } else if code == 101 {
                self.current_style.bg = Some(Color::LightRed);
            } else if code == 102 {
                self.current_style.bg = Some(Color::LightGreen);
            } else if code == 103 {
                self.current_style.bg = Some(Color::LightYellow);
            } else if code == 104 {
                self.current_style.bg = Some(Color::LightBlue);
            } else if code == 105 {
                self.current_style.bg = Some(Color::LightMagenta);
            } else if code == 106 {
                self.current_style.bg = Some(Color::LightCyan);
            } else if code == 107 {
                self.current_style.bg = Some(Color::White);
            } else if code == 38 {
                // extended foreground: 256-color (5;n) or RGB (2;r;g;b)
                if params.len() - i > 1 {
                    if params[i + 1] == 5 {
                        if params.len() - i > 2 {
                            self.current_style.fg = Some(Color::Indexed(params[i + 2]));
                            i = i + 2;
                        }
                    } else if params[i + 1] == 2 {
                        if params.len() - i > 4 {
                            self.current_style.fg = Some(
                                Color::Rgb(params[i + 2], params[i + 3], params[i + 4]),
                            );
                            i = i + 4;
                        }
                    }
                }
            } else if code == 48 {
                // extended background: 256-color (5;n) or RGB (2;r;g;b)
                if params.len() - i > 1 {
                    if params[i + 1] == 5 {
                        if params.len() - i > 2 {
                            self.current_style.bg = Some(Color::Indexed(params[i + 2]));
                            i = i + 2;
                        }
                    } else if params[i + 1] == 2 {
                        if params.len() - i > 4 {
                            self.current_style.bg = Some(
                                Color::Rgb(params[i + 2], params[i + 3], params[i + 4]),
                            );
                            i = i + 4;
                        }
                    }
                }
            }
            i = i + 1;
        }
    }

    /// Applies the completed escape sequence to the style: only CSI
    /// sequences that select graphic rendition (ending in `m`) change it;
    /// the escape tracking state is untouched.
    fn process_escape_sequence(&mut self)
        ensures
            final(self).escape_buffer@ == old(self).escape_buffer@,
            final(self).in_escape == old(self).in_escape,
    {
        let n = self.escape_buffer.len();
        if n < 3 {
            return ;
        }
        if !(self.escape_buffer[0] == '\x1b' && self.escape_buffer[1] == '[') {
            return ;
        }
        if !(self.escape_buffer[n - 1] == 'm') {
            return ;
        }
        let params = self.parse_params();
        self.apply_sgr_params(&params);
    }

    /// Feeds one character. A character inside an escape sequence is
    /// swallowed (`None`), and the sequence closes exactly when it becomes
    /// complete; the escape character opens a sequence and is swallowed;
    /// any other character is displayed with the current style.
    pub fn parse_char(&mut self, ch: char) -> (r: Option<Style>)
        ensures
            r == if ansi_visible_step(old(self).in_escape_spec(), ch) {
                Some(old(self).style_spec())
            } else {
                None::<Style>
            },
            (final(self).in_escape_spec(), final(self).pending_spec()) == ansi_step(
                old(self).in_escape_spec(),
                old(self).pending_spec(),
                ch,
            ),
            !old(self).in_escape_spec() && ch != esc() ==> *final(self) == *old(self),
            !old(self).in_escape_spec() ==> final(self).style_spec() == old(self).style_spec(),
    {
        if self.in_escape {
            self.escape_buffer.push(ch);
            if self.is_escape_complete() {
                self.process_escape_sequence();
                self.escape_buffer.clear();
                self.in_escape = false;
            }
            None
        } else if ch == '\x1b' {
            self.in_escape = true;
            self.escape_buffer.clear();
            self.escape_buffer.push(ch);
            None
        } else {
            Some(self.current_style)
        }
    }
}

/// Whether the text holds any ANSI escape character.
pub fn contains_ansi_codes(text: &str) -> (r: bool)
    ensures
        r == has_esc(text@),
{
    let n = text.unicode_len();
    let mut i: usize = 0;
    while i < n
        invariant
            n == text@.len(),
            i <= n,
            forall|q: int| 0 <= q < i ==> text@[q] != esc(),
        decreases n - i,
    {
        if text.get_char(i) == '\x1b' {
            return true;
        }
        i = i + 1;
    }
    false
}

/// The text with all escape sequences removed: exactly the displayed
/// characters, in their original order. Text without an escape character
/// comes back unchanged, and the result never grows; stripping a stripped
/// text changes nothing (see `lemma_strip_idempotent`).
pub fn strip_ansi_codes(text: &str) -> (r: String)
    ensures
        r@ == visible_chars(text@, false, Seq::<char>::empty()),
        !has_esc(text@) ==> r@ == text@,
        r@.len() <= text@.len(),
{
    if !contains_ansi_codes(text) {
        proof {
            lemma_visible_no_esc(text@, Seq::<char>::empty());
        }
        return text.to_owned();
    }
    let n = text.unicode_len();
    let mut result = String::new();
    let mut parser = AnsiParser::new();
    let mut i: usize = 0;
    proof {
        assert(text@.skip(0) =~= text@);
    }
    while i < n
        invariant
            n == text@.len(),
            i <= n,
            result@.len() <= i,
            visible_chars(text@, false, Seq::<char>::empty()) == result@ + visible_chars(
                text@.skip(i as int),
                parser.in_escape_spec(),
                parser.pending_spec(),
            ),
        decreases n - i,
    {
        let ch = text.get_char(i);
        proof {
            assert(text@.skip(i as int)[0] == text@[i as int]);
            assert(text@.skip(i as int).drop_first() =~= text@.skip(i as int + 1));
        }
        let ghost old_result = result@;
        if parser.parse_char(ch).is_some() {
            let piece = text.substring_char(i, i + 1);
            result.append(piece);
            proof {
                assert(piece@ =~= seq![text@[i as int]]);
                assert(result@ =~= old_result + seq![text@[i as int]]);
            }
        }
        proof {
            assert(visible_chars(text@, false, Seq::<char>::empty()) =~= result@ + visible_chars(
                text@.skip(i as int + 1),
                parser.in_escape_spec(),
                parser.pending_spec(),
            ));
        }
        i = i + 1;
    }
    proof {
        assert(text@.skip(n as int) =~= Seq::<char>::empty());
        assert(visible_chars(text@, false, Seq::<char>::empty()) =~= result@);
        lemma_visible_output_no_esc(text@, false, Seq::<char>::empty());
    }
    result
}

/// The number of displayed characters, escape sequences excluded: the
/// length of the stripped text. Text without an escape character counts
/// every character.
pub fn visible_char_count(text: &str) -> (r: usize)
    ensures
        r == visible_chars(text@, false, Seq::<char>::empty()).len(),
        !has_esc(text@) ==> r == text@.len(),
        r <= text@.len(),
{
    let n = text.unicode_len();
    let mut count: usize = 0;
    let mut parser = AnsiParser::new();
    let mut i: usize = 0;
    proof {
        assert(text@.skip(0) =~= text@);
    }
    while i < n
        invariant
            n == text@.len(),
            i <= n,
            count <= i,
            visible_chars(text@, false, Seq::<char>::empty()).len() == count + visible_chars(
                text@.skip(i as int),
                parser.in_escape_spec(),
                parser.pending_spec(),
            ).len(),
        decreases n - i,
    {
        let ch = text.get_char(i);
        proof {
            assert(text@.skip(i as int)[0] == text@[i as int]);
            assert(text@.skip(i as int).drop_first() =~= text@.skip(i as int + 1));
        }
        if parser.parse_char(ch).is_some() {
            count = count + 1;
        }
        i = i + 1;
    }
    proof {
        assert(text@.skip(n as int) =~= Seq::<char>::empty());
        if !has_esc(text@) {
            lemma_visible_no_esc(text@, Seq::<char>::empty());
        }
    }
    count
}

/// The characters of a segment list, concatenated in order.
pub open spec fn segs_text(v: Seq<(String, Style)>) -> Seq<char>
    decreases v.len(),
{
    if v.len() == 0 {
        Seq::empty()
    } else {
        segs_text(v.drop_last()) + v.last().0@
    }
}

/// The text cut into maximal runs of equal style, each with that style:
/// the segment texts concatenate to exactly the displayed characters, in
/// order. Text without an escape character is one plain-styled segment.
pub fn parse_ansi_string(text: &str) -> (r: Vec<(String, Style)>)
    ensures
        segs_text(r@) == visible_chars(text@, false, Seq::<char>::empty()),
        !has_esc(text@) ==> r@.len() == 1 && r@[0].0@ == text@ && r@[0].1 == plain_style(),
{
    if !contains_ansi_codes(text) {
        let mut out: Vec<(String, Style)> = Vec::new();
        out.push((text.to_owned(), Style::default()));
        proof {
            lemma_visible_no_esc(text@, Seq::<char>::empty());
            assert(out@.drop_last() =~= Seq::<(String, Style)>::empty());
            assert(segs_text(Seq::<(String, Style)>::empty()) =~= Seq::<char>::empty());
            assert(out@.last().0@ == text@);
            assert(segs_text(out@) =~= text@);
        }
        return out;
    }
    let n = text.unicode_len();
    let mut result: Vec<(String, Style)> = Vec::new();
    let mut parser = AnsiParser::new();
    let mut current_text = String::new();
    let mut current_style = Style::default();
    let mut i: usize = 0;
    proof {
        assert(text@.skip(0) =~= text@);
    }
    while i < n
        invariant
            n == text@.len(),
            i <= n,
            visible_chars(text@, false, Seq::<char>::empty()) == segs_text(result@)
                + current_text@ + visible_chars(
                text@.skip(i as int),
                parser.in_escape_spec(),
                parser.pending_spec(),
            ),
        decreases n - i,
    {
        let ch = text.get_char(i);
        proof {
            assert(text@.skip(i as int)[0] == text@[i as int]);
            assert(text@.skip(i as int).drop_first() =~= text@.skip(i as int + 1));
        }
        match parser.parse_char(ch) {
            Some(style) => {
                if style != current_style && current_text.as_str().unicode_len() > 0 {
                    let ghost old_result = result@;
                    let ghost moved = current_text@;
                    result.push((current_text, current_style));
                    current_text = String::new();
                    proof {
                        assert(result@.drop_last() =~= old_result);
                        assert(result@.last().0@ == moved);
                        assert(segs_text(result@) + current_text@ =~= segs_text(old_result)
                            + moved);
                    }
                }
                current_style = style;
                let ghost before_piece = current_text@;
                let piece = text.substring_char(i, i + 1);
                current_text.append(piece);
                proof {
                    assert(piece@ =~= seq![text@[i as int]]);
                    assert(current_text@ =~= before_piece + seq![text@[i as int]]);
                }
            },
            None => {},
        }
        proof {
            assert(visible_chars(text@, false, Seq::<char>::empty()) =~= segs_text(result@)
                + current_text@ + visible_chars(
                text@.skip(i as int + 1),
                parser.in_escape_spec(),
                parser.pending_spec(),
            ));
        }
        i = i + 1;
    }
    proof {
        assert(text@.skip(n as int) =~= Seq::<char>::empty());
    }
    if current_text.as_str().unicode_len() > 0 {
        let ghost old_result = result@;
        let ghost moved = current_text@;
        result.push((current_text, current_style));
        proof {
            assert(result@.drop_last() =~= old_result);
            assert(result@.last().0@ == moved);
            assert(segs_text(result@) =~= segs_text(old_result) + moved);
        }
        result
    } else {
        proof {
            assert(current_text@ =~= Seq::<char>::empty());
            assert(segs_text(result@) =~= segs_text(result@) + current_text@);
        }
        result
    }
}

} // verus!
