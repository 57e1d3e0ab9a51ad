use vstd::prelude::*;

use crate::error::Error;

verus! {

/// Simulation mode selected by the caller.
#[derive(Clone, Copy, Debug, PartialEq, Eq, Structural)]
pub enum Mode {
    Xas,
    Xmcd,
}

/// The mode named by a piece of text, if any.
pub open spec fn mode_of_text(s: Seq<char>) -> Option<Mode> {
    if s == seq!['x', 'a', 's'] || s == seq!['X', 'A', 'S'] || s == seq!['X', 'a', 's'] {
        Some(Mode::Xas)
    } else if s == seq!['x', 'm', 'c', 'd'] || s == seq!['X', 'M', 'C', 'D'] || s == seq![
        'X',
        'm',
        'c',
        'd',
    ] {
        Some(Mode::Xmcd)
    } else {
        None
    }
}

impl Mode {
    /// Parses a mode name; exactly the spellings "xas", "XAS", "Xas",
    /// "xmcd", "XMCD" and "Xmcd" are accepted.
    pub fn from_str(s: &str) -> (r: Result<Mode, Error>)
        ensures
            match r {
                Ok(m) => mode_of_text(s@) == Some(m),
                Err(e) => mode_of_text(s@) is None && e == Error::InvalidMode,
            },
    {
        let n = s.unicode_len();
        if n == 3 {
            let c0 = s.get_char(0);
            let c1 = s.get_char(1);
            let c2 = s.get_char(2);
            if (c0 == 'x' && c1 == 'a' && c2 == 's') || (c0 == 'X' && c1 == 'A' && c2 == 'S') || (c0
                == 'X' && c1 == 'a' && c2 == 's') {
                proof {
                    assert(s@ =~= seq![c0, c1, c2]);
                }
                Ok(Mode::Xas)
            } else {
                proof {
                    assert(s@ =~= seq![c0, c1, c2]);
                }
                Err(Error::InvalidMode)
            }
        } else if n == 4 {
            let c0 = s.get_char(0);
            let c1 = s.get_char(1);
            let c2 = s.get_char(2);
            let c3 = s.get_char(3);
            if (c0 == 'x' && c1 == 'm' && c2 == 'c' && c3 == 'd') || (c0 == 'X' && c1 == 'M' && c2
                == 'C' && c3 == 'D') || (c0 == 'X' && c1 == 'm' && c2 == 'c' && c3 == 'd') {
                proof {
                    assert(s@ =~= seq![c0, c1, c2, c3]);
                }
                Ok(Mode::Xmcd)
            } else {
                proof {
                    assert(s@ =~= seq![c0, c1, c2, c3]);
                }
                Err(Error::InvalidMode)
            }
        } else {
            Err(Error::InvalidMode)
        }
    }

    /// The canonical lower-case name of the mode.
    pub fn text(&self) -> (r: String)
        ensures
            mode_of_text(r@) == Some(*self),
    {
        match self {
            Mode::Xas => {
                let t = "xas";
                proof {
                    reveal_strlit("xas");
                    assert(t@ =~= seq!['x', 'a', 's']);
                }
                t.to_owned()
            },
            Mode::Xmcd => {
                let t = "xmcd";
                proof {
                    reveal_strlit("xmcd");
                    assert(t@ =~= seq!['x', 'm', 'c', 'd']);
                }
                t.to_owned()
            },
        }
    }
}

} // verus!
