//! Indentation- and line-state-aware text writer.
//!
//! The formatter turns a sequence of write and layout operations into text
//! with correct indentation, without ever emitting indentation on a line that
//! stays empty.  Its behaviour is captured by the ghost state [`FmtState`]
//! and the transition functions [`fmt_write`], [`fmt_new_line`],
//! [`fmt_new_line_unless_empty`], [`fmt_indent`] and [`fmt_unindent`].

use vstd::prelude::*;

verus! {

/// Ghost model of a formatter: the text written so far and the layout state.
#[verifier::ext_equal]
pub ghost struct FmtState {
    /// Everything written to the output so far.
    pub text: Seq<char>,
    /// Whether nothing has been written on the current line yet.
    pub line_empty: bool,
    /// Current nesting level.
    pub level: nat,
    /// Number of spaces per nesting level.
    pub width: nat,
}

/// A run of `n` spaces.
pub open spec fn spaces(n: nat) -> Seq<char> {
    Seq::new(n, |i: int| ' ')
}

/// The state of a formatter as first constructed: no output, an empty
/// current line, no nesting, and the default width of two spaces per level.
pub open spec fn init_state() -> FmtState {
    FmtState { text: Seq::empty(), line_empty: true, level: 0, width: 2 }
}

/// Lazily emitted indentation: the first write on a non-empty nesting level
/// puts the indentation prefix in front of the content of the line.
pub open spec fn fmt_start_line(s: FmtState) -> FmtState {
    if s.line_empty && s.level > 0 {
        FmtState { text: s.text + spaces(s.level * s.width), line_empty: false, ..s }
    } else {
        s
    }
}

/// Effect of writing `t`: nothing happens on empty input; otherwise the
/// pending indentation is emitted first and `t` follows verbatim.
pub open spec fn fmt_write(s: FmtState, t: Seq<char>) -> FmtState {
    if t.len() == 0 {
        s
    } else {
        let s1 = fmt_start_line(s);
        FmtState { text: s1.text + t, line_empty: false, ..s1 }
    }
}

/// Effect of an unconditional line break.
pub open spec fn fmt_new_line(s: FmtState) -> FmtState {
    FmtState { text: s.text.push('\n'), line_empty: true, ..s }
}

/// Effect of a line break that is suppressed while the current line is empty.
pub open spec fn fmt_new_line_unless_empty(s: FmtState) -> FmtState {
    if s.line_empty {
        s
    } else {
        fmt_new_line(s)
    }
}

/// Effect of entering one nesting level; the level saturates at the machine
/// limit instead of wrapping.
pub open spec fn fmt_indent(s: FmtState) -> FmtState {
    if s.level < usize::MAX {
        FmtState { level: s.level + 1, ..s }
    } else {
        s
    }
}

/// Effect of leaving one nesting level, saturating at zero.
pub open spec fn fmt_unindent(s: FmtState) -> FmtState {
    if s.level > 0 {
        FmtState { level: (s.level - 1) as nat, ..s }
    } else {
        s
    }
}

/// Blank-line suppression: requesting a conditional line break twice in a row
/// has the effect of requesting it once, and a single request adds at most
/// one character to the output.
pub proof fn lemma_blank_line_suppression(s: FmtState)
    ensures
        fmt_new_line_unless_empty(fmt_new_line_unless_empty(s)) == fmt_new_line_unless_empty(s),
        fmt_new_line_unless_empty(s).text.len() <= s.text.len() + 1,
{
}

/// Formatter for building indented text in an owned output buffer.
pub struct Formatter {
    /// The output collected so far.
    out: String,
    /// Whether the current line is still empty.
    current_line_empty: bool,
    /// Current indentation level.
    indent: usize,
    /// Number of spaces per indentation level.
    indentation: usize,
}

impl Formatter {
    /// The ghost state of this formatter.
    pub closed spec fn mdl(self) -> FmtState {
        FmtState {
            text: self.out@,
            line_empty: self.current_line_empty,
            level: self.indent as nat,
            width: self.indentation as nat,
        }
    }

    /// Create a formatter with an empty output buffer and the default
    /// indentation width of two spaces per level.
    pub fn new() -> (f: Formatter)
        ensures
            f.mdl() == init_state(),
    {
        let f = Formatter {
            out: String::new(),
            current_line_empty: true,
            indent: 0,
            indentation: 2,
        };
        proof {
            assert(f.mdl() =~= init_state());
        }
        f
    }

    /// Configure the indentation width associated with the formatter.
    pub fn with_indentation(self, indentation: usize) -> (f: Formatter)
        ensures
            f.mdl() == (FmtState { width: indentation as nat, ..self.mdl() }),
    {
        Formatter { indentation, ..self }
    }

    /// Emit the pending indentation if real content is about to follow on a
    /// line that is still empty.
    fn check_indent(&mut self)
        ensures
            final(self).mdl() == fmt_start_line(old(self).mdl()),
    {
        if self.current_line_empty && self.indent > 0 {
            let ghost start = self.mdl();
            let mut i: usize = 0;
            proof {
                assert(start.text + spaces((i as nat) * start.width) =~= start.text);
            }
            while i < self.indent
                invariant
                    i <= self.indent,
                    self.indent as nat == start.level,
                    self.indentation as nat == start.width,
                    self.current_line_empty == start.line_empty,
                    self.out@ == start.text + spaces((i as nat) * start.width),
                decreases self.indent - i,
            {
                let mut j: usize = 0;
                while j < self.indentation
                    invariant
                        j <= self.indentation,
                        i < self.indent,
                        self.indent as nat == start.level,
                        self.indentation as nat == start.width,
                        self.current_line_empty == start.line_empty,
                        self.out@ == start.text + spaces((i as nat) * start.width + j as nat),
                    decreases self.indentation - j,
                {
                    let ghost before = self.out@;
                    self.out.append(" ");
                    proof {
                        reveal_strlit(" ");
                        assert(before + " "@ =~= start.text + spaces(
                            (i as nat) * start.width + (j + 1) as nat,
                        ));
                    }
                    j = j + 1;
                }
                proof {
                    assert((i as nat) * start.width + start.width == ((i + 1) as nat)
                        * start.width) by (nonlinear_arith);
                }
                i = i + 1;
            }
            self.current_line_empty = false;
            proof {
                assert(self.mdl() =~= fmt_start_line(start));
            }
        }
    }

    /// Write the given string.  A write of the empty string does nothing; any
    /// other write first emits the pending indentation and then the string
    /// verbatim, and marks the current line as non-empty.
    pub fn write_str(&mut self, s: &str)
        ensures
            final(self).mdl() == fmt_write(old(self).mdl(), s@),
    {
        if !s.is_empty() {
            self.check_indent();
            self.out.append(s);
            self.current_line_empty = false;
            proof {
                assert(self.mdl() =~= fmt_write(old(self).mdl(), s@));
            }
        }
    }

    /// Push a line break, unconditionally.
    pub fn new_line(&mut self)
        ensures
            final(self).mdl() == fmt_new_line(old(self).mdl()),
    {
        let ghost before = self.out@;
        self.out.append("\n");
        self.current_line_empty = true;
        proof {
            reveal_strlit("\n");
            assert(before + "\n"@ =~= before.push('\n'));
            assert(self.mdl() =~= fmt_new_line(old(self).mdl()));
        }
    }

    /// Push a line break, unless the current line is empty.  Calling this
    /// twice in a row therefore emits at most one line break.
    pub fn new_line_unless_empty(&mut self)
        ensures
            final(self).mdl() == fmt_new_line_unless_empty(old(self).mdl()),
    {
        if !self.current_line_empty {
            self.new_line();
        }
    }

    /// Increase the indentation level, saturating at the machine limit.
    pub fn indent(&mut self)
        ensures
            final(self).mdl() == fmt_indent(old(self).mdl()),
    {
        if self.indent < usize::MAX {
            self.indent = self.indent + 1;
        }
        proof {
            assert(self.mdl() =~= fmt_indent(old(self).mdl()));
        }
    }

    /// Decrease the indentation level, saturating at zero.
    pub fn unindent(&mut self)
        ensures
            final(self).mdl() == fmt_unindent(old(self).mdl()),
    {
        if self.indent > 0 {
            self.indent = self.indent - 1;
        }
        proof {
            assert(self.mdl() =~= fmt_unindent(old(self).mdl()));
        }
    }

    /// Hand out the text written so far, consuming the formatter.
    pub fn into_string(self) -> (r: String)
        ensures
            r@ == self.mdl().text,
    {
        self.out
    }
}

} // verus!
