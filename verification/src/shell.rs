//! Console-output preferences and terminal hyperlink framing: the plain
//! data the presentation layer keys its behaviour on. The actual writing
//! to a terminal lives outside this crate.

use vstd::prelude::*;

verus! {

/// Width of the terminal attached to standard error, as far as it can be
/// known.
pub enum TtyWidth {
    NoTty,
    Known(usize),
    Guess(usize),
}

/// The requested verbosity of output.
#[derive(Clone, Copy, Debug, PartialEq, Eq, Structural)]
pub enum Verbosity {
    Verbose,
    Normal,
    Quiet,
}

/// Whether messages should use color output.
#[derive(Clone, Copy, Debug, PartialEq, Eq, Structural)]
pub enum ColorChoice {
    /// Force color output.
    Always,
    /// Force disable color output.
    Never,
    /// Intelligently guess whether to use color output.
    CargoAuto,
}

/// A terminal hyperlink: text framed by its opening and closing escape
/// sequences points at `url`.
pub struct Hyperlink {
    pub url: Option<String>,
}

impl Hyperlink {
    /// A hyperlink to nowhere: open and close frames are empty.
    pub fn none() -> (h: Hyperlink)
        ensures
            h.url is None,
    {
        Hyperlink { url: None }
    }

    /// The escape sequence that starts the link.
    pub fn open(&self) -> (s: String)
        ensures
            match self.url {
                Some(u) => s@ == "\x1b]8;;"@ + u@ + "\x1b\\"@,
                None => s@ == Seq::<char>::empty(),
            },
    {
        match &self.url {
            Some(u) => {
                let mut s = String::new();
                s.append("\x1b]8;;");
                s.append(u.as_str());
                s.append("\x1b\\");
                proof {
                    assert(s@ == "\x1b]8;;"@ + self.url->0@ + "\x1b\\"@);
                }
                s
            },
            None => String::new(),
        }
    }

    /// The escape sequence that ends the link.
    pub fn close(&self) -> (s: &'static str)
        ensures
            match self.url {
                Some(_) => s@ == "\x1b]8;;\x1b\\"@,
                None => s@ == ""@,
            },
    {
        if self.url.is_some() {
            "\x1b]8;;\x1b\\"
        } else {
            ""
        }
    }
}

} // verus!
