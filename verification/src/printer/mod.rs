//! A small line printer that keeps track of the indentation, and the text
//! generators built on it.

use crate::text::{decimal, push_decimal, string_push, string_push_str};
use vstd::prelude::*;

pub mod header;
pub mod implementation;
pub mod key_matcher;
pub mod theme;

verus! {

/// `n` tab characters.
pub open spec fn tabs(n: nat) -> Seq<char> {
    Seq::new(n, |i: int| '\t')
}

/// One line of text at indentation `depth`, with its line break.
pub open spec fn line(depth: nat, text: Seq<char>) -> Seq<char> {
    tabs(depth) + text + seq!['\n']
}

/// Prints lines of text into a buffer, indented by tabs.
pub struct Printer {
    out: String,
    indent: usize,
}

impl Printer {
    /// The text printed so far.
    pub closed spec fn output(&self) -> Seq<char> {
        self.out@
    }

    /// The current indentation.
    pub closed spec fn depth(&self) -> nat {
        self.indent as nat
    }

    /// A printer with nothing printed yet, at indentation 0.
    pub fn new() -> (p: Self)
        ensures
            p.output() == Seq::<char>::empty(),
            p.depth() == 0,
    {
        Printer { out: String::new(), indent: 0 }
    }

    /// Increases the indentation by one.
    pub fn indent(&mut self)
        requires
            old(self).depth() < usize::MAX,
        ensures
            final(self).depth() == old(self).depth() + 1,
            final(self).output() == old(self).output(),
    {
        self.indent = self.indent + 1;
    }

    /// Decreases the indentation by one; there must be an indentation to remove.
    pub fn dedent(&mut self)
        requires
            old(self).depth() > 0,
        ensures
            final(self).depth() == old(self).depth() - 1,
            final(self).output() == old(self).output(),
    {
        self.indent = self.indent - 1;
    }

    /// Prints `line` at the current indentation, followed by a line break.
    pub fn write_line(&mut self, line: &str)
        ensures
            final(self).depth() == old(self).depth(),
            final(self).output() == old(self).output() + self::line(old(self).depth(), line@),
    {
        self.begin_line();
        self.write(line);
        string_push(&mut self.out, '\n');
    }

    /// Prints the indentation of a new line.
    pub fn begin_line(&mut self)
        ensures
            final(self).depth() == old(self).depth(),
            final(self).output() == old(self).output() + tabs(old(self).depth()),
    {
        let mut i: usize = 0;
        while i < self.indent
            invariant
                i <= self.indent,
                self.indent == old(self).indent,
                self.out@ == old(self).out@ + tabs(i as nat),
            decreases self.indent - i,
        {
            string_push(&mut self.out, '\t');
            assert(tabs(i as nat).push('\t') =~= tabs((i + 1) as nat));
            i = i + 1;
        }
    }

    /// Prints `s` as it is.
    pub fn write(&mut self, s: &str)
        ensures
            final(self).depth() == old(self).depth(),
            final(self).output() == old(self).output() + s@,
    {
        string_push_str(&mut self.out, s);
    }

    /// Prints the indentation of a new line, followed by the (formatted) `text`.
    pub fn write_fmt(&mut self, text: &str)
        ensures
            final(self).depth() == old(self).depth(),
            final(self).output() == old(self).output() + tabs(old(self).depth()) + text@,
    {
        self.begin_line();
        self.write(text);
    }

    /// Prints one character.
    pub fn write_char(&mut self, c: char)
        ensures
            final(self).depth() == old(self).depth(),
            final(self).output() == old(self).output().push(c),
    {
        string_push(&mut self.out, c);
    }

    /// Prints the decimal representation of `n`.
    pub fn write_number(&mut self, n: usize)
        ensures
            final(self).depth() == old(self).depth(),
            final(self).output() == old(self).output() + decimal(n as nat),
    {
        push_decimal(&mut self.out, n);
    }

    /// Ends the current line.
    pub fn end_line(&mut self)
        ensures
            final(self).depth() == old(self).depth(),
            final(self).output() == old(self).output() + seq!['\n'],
    {
        string_push(&mut self.out, '\n');
    }

    /// The text printed so far.
    pub fn text(&self) -> (s: &str)
        ensures
            s@ == self.output(),
    {
        self.out.as_str()
    }
}

} // verus!
