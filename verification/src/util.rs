//! Small shared utilities: capitalization and error collapsing.

use vstd::prelude::*;
use vstd::string::{StringExecFns, StrSliceExecFns};

verus! {

/// `c` with an ASCII lowercase letter raised to its uppercase form; any
/// other character is left alone.
pub open spec fn upper_char(c: char) -> char {
    if c == 'a' {
        'A'
    } else if c == 'b' {
        'B'
    } else if c == 'c' {
        'C'
    } else if c == 'd' {
        'D'
    } else if c == 'e' {
        'E'
    } else if c == 'f' {
        'F'
    } else if c == 'g' {
        'G'
    } else if c == 'h' {
        'H'
    } else if c == 'i' {
        'I'
    } else if c == 'j' {
        'J'
    } else if c == 'k' {
        'K'
    } else if c == 'l' {
        'L'
    } else if c == 'm' {
        'M'
    } else if c == 'n' {
        'N'
    } else if c == 'o' {
        'O'
    } else if c == 'p' {
        'P'
    } else if c == 'q' {
        'Q'
    } else if c == 'r' {
        'R'
    } else if c == 's' {
        'S'
    } else if c == 't' {
        'T'
    } else if c == 'u' {
        'U'
    } else if c == 'v' {
        'V'
    } else if c == 'w' {
        'W'
    } else if c == 'x' {
        'X'
    } else if c == 'y' {
        'Y'
    } else if c == 'z' {
        'Z'
    } else {
        c
    }
}

/// `s` with its first character uppercased (ASCII letters only); the empty
/// sequence stays empty.
pub open spec fn capitalized(s: Seq<char>) -> Seq<char> {
    if s.len() == 0 {
        s
    } else {
        seq![upper_char(s[0])] + s.subrange(1, s.len() as int)
    }
}

/// Uppercase the first character of a string. This is deliberately limited
/// to the ASCII letters `a..=z`: a first character outside that range --
/// including a non-ASCII letter -- passes through unchanged, because full
/// Unicode case mapping is locale-dependent and out of this library's
/// scope. `upper_char` and `capitalized` state the policy exactly.
pub trait Capitalize: Sized {
    /// The characters the receiver holds.
    spec fn chars_view(&self) -> Seq<char>;

    /// The receiver with its first character uppercased.
    fn capitalize(self) -> (r: String)
        ensures
            r@ == capitalized(self.chars_view()),
    ;
}

impl Capitalize for &str {
    open spec fn chars_view(&self) -> Seq<char> {
        self@
    }

    fn capitalize(self) -> (r: String) {
        let n: usize = self.unicode_len();
        if n == 0 {
            let r = String::new();
            proof {
                assert(r@ =~= capitalized(self@));
            }
            return r;
        }
        let c: char = self.get_char(0);
        let head: &str = match c {
            'a' => "A",
            'b' => "B",
            'c' => "C",
            'd' => "D",
            'e' => "E",
            'f' => "F",
            'g' => "G",
            'h' => "H",
            'i' => "I",
            'j' => "J",
            'k' => "K",
            'l' => "L",
            'm' => "M",
            'n' => "N",
            'o' => "O",
            'p' => "P",
            'q' => "Q",
            'r' => "R",
            's' => "S",
            't' => "T",
            'u' => "U",
            'v' => "V",
            'w' => "W",
            'x' => "X",
            'y' => "Y",
            'z' => "Z",
            _ => {
                let r = String::from_str(self);
                proof {
                    assert(self@.subrange(1, self@.len() as int) =~= r@.subrange(
                        1,
                        r@.len() as int,
                    ));
                    assert(r@ =~= capitalized(self@));
                }
                return r;
            }
        };
        proof {
            reveal_strlit("A");
            reveal_strlit("B");
            reveal_strlit("C");
            reveal_strlit("D");
            reveal_strlit("E");
            reveal_strlit("F");
            reveal_strlit("G");
            reveal_strlit("H");
            reveal_strlit("I");
            reveal_strlit("J");
            reveal_strlit("K");
            reveal_strlit("L");
            reveal_strlit("M");
            reveal_strlit("N");
            reveal_strlit("O");
            reveal_strlit("P");
            reveal_strlit("Q");
            reveal_strlit("R");
            reveal_strlit("S");
            reveal_strlit("T");
            reveal_strlit("U");
            reveal_strlit("V");
            reveal_strlit("W");
            reveal_strlit("X");
            reveal_strlit("Y");
            reveal_strlit("Z");
        }
        let rest: &str = self.substring_char(1, n);
        let r: String = String::from_str(head).concat(rest);
        proof {
            assert(r@ =~= capitalized(self@));
        }
        r
    }
}

impl Capitalize for String {
    open spec fn chars_view(&self) -> Seq<char> {
        self@
    }

    fn capitalize(self) -> (r: String) {
        self.as_str().capitalize()
    }
}

/// Collapse an error to a unit, keeping the success value.
pub trait PresentError<T>: Sized {
    /// The same outcome with the error collapsed.
    spec fn presented(self) -> Result<T, ()>;

    /// Hand the success on and swallow the error's detail.
    fn present_err(self) -> (r: Result<T, ()>)
        ensures
            r == self.presented(),
    ;
}

impl<T, E> PresentError<T> for Result<T, E> {
    open spec fn presented(self) -> Result<T, ()> {
        match self {
            Ok(t) => Ok(t),
            Err(_) => Err(()),
        }
    }

    fn present_err(self) -> (r: Result<T, ()>) {
        match self {
            Ok(t) => Ok(t),
            Err(_) => Err(()),
        }
    }
}

} // verus!
