//! The fixed words of the annotation grammar, as byte sequences.
use vstd::prelude::*;

use crate::bytes::{bytes_at, starts_at};

verus! {

/// A fixed word of the grammar: a property key, a boolean, a tangle mode
/// keyword or a quote.
#[derive(Clone, Copy, PartialEq, Eq)]
pub enum Word {
    Filename,
    Tag,
    Mode,
    Code,
    Pre,
    Post,
    Ignore,
    True,
    False,
    Overwrite,
    Append,
    Prepend,
    Insert,
    TripleBar,
}

impl Word {
    pub open spec fn bytes(self) -> Seq<u8> {
        match self {
            Word::Filename => seq![0x66u8, 0x69, 0x6c, 0x65, 0x6e, 0x61, 0x6d, 0x65],
            Word::Tag => seq![0x74u8, 0x61, 0x67],
            Word::Mode => seq![0x6du8, 0x6f, 0x64, 0x65],
            Word::Code => seq![0x63u8, 0x6f, 0x64, 0x65],
            Word::Pre => seq![0x70u8, 0x72, 0x65],
            Word::Post => seq![0x70u8, 0x6f, 0x73, 0x74],
            Word::Ignore => seq![0x69u8, 0x67, 0x6e, 0x6f, 0x72, 0x65],
            Word::True => seq![0x74u8, 0x72, 0x75, 0x65],
            Word::False => seq![0x66u8, 0x61, 0x6c, 0x73, 0x65],
            Word::Overwrite => seq![0x6fu8, 0x76, 0x65, 0x72, 0x77, 0x72, 0x69, 0x74, 0x65],
            Word::Append => seq![0x61u8, 0x70, 0x70, 0x65, 0x6e, 0x64],
            Word::Prepend => seq![0x70u8, 0x72, 0x65, 0x70, 0x65, 0x6e, 0x64],
            Word::Insert => seq![0x69u8, 0x6e, 0x73, 0x65, 0x72, 0x74],
            Word::TripleBar => seq![0x7cu8, 0x7c, 0x7c],
        }
    }

    pub fn len(self) -> (r: usize)
        ensures
            r as int == self.bytes().len(),
    {
        match self {
            Word::Filename => 8,
            Word::Tag => 3,
            Word::Mode => 4,
            Word::Code => 4,
            Word::Pre => 3,
            Word::Post => 4,
            Word::Ignore => 6,
            Word::True => 4,
            Word::False => 5,
            Word::Overwrite => 9,
            Word::Append => 6,
            Word::Prepend => 7,
            Word::Insert => 6,
            Word::TripleBar => 3,
        }
    }

    /// Whether this word occurs in `s` at position `p`.
    pub fn occurs_at(self, s: &[u8], p: usize) -> (r: bool)
        ensures
            r == starts_at(s@, p as int, self.bytes()),
    {
        match self {
            Word::Filename => {
                let w: [u8; 8] = [0x66, 0x69, 0x6c, 0x65, 0x6e, 0x61, 0x6d, 0x65];
                proof {
                    assert(w@ =~= self.bytes());
                }
                bytes_at(s, p, w.as_slice())
            },
            Word::Tag => {
                let w: [u8; 3] = [0x74, 0x61, 0x67];
                proof {
                    assert(w@ =~= self.bytes());
                }
                bytes_at(s, p, w.as_slice())
            },
            Word::Mode => {
                let w: [u8; 4] = [0x6d, 0x6f, 0x64, 0x65];
                proof {
                    assert(w@ =~= self.bytes());
                }
                bytes_at(s, p, w.as_slice())
            },
            Word::Code => {
                let w: [u8; 4] = [0x63, 0x6f, 0x64, 0x65];
                proof {
                    assert(w@ =~= self.bytes());
                }
                bytes_at(s, p, w.as_slice())
            },
            Word::Pre => {
                let w: [u8; 3] = [0x70, 0x72, 0x65];
                proof {
                    assert(w@ =~= self.bytes());
                }
                bytes_at(s, p, w.as_slice())
            },
            Word::Post => {
                let w: [u8; 4] = [0x70, 0x6f, 0x73, 0x74];
                proof {
                    assert(w@ =~= self.bytes());
                }
                bytes_at(s, p, w.as_slice())
            },
            Word::Ignore => {
                let w: [u8; 6] = [0x69, 0x67, 0x6e, 0x6f, 0x72, 0x65];
                proof {
                    assert(w@ =~= self.bytes());
                }
                bytes_at(s, p, w.as_slice())
            },
            Word::True => {
                let w: [u8; 4] = [0x74, 0x72, 0x75, 0x65];
                proof {
                    assert(w@ =~= self.bytes());
                }
                bytes_at(s, p, w.as_slice())
            },
            Word::False => {
                let w: [u8; 5] = [0x66, 0x61, 0x6c, 0x73, 0x65];
                proof {
                    assert(w@ =~= self.bytes());
                }
                bytes_at(s, p, w.as_slice())
            },
            Word::Overwrite => {
                let w: [u8; 9] = [0x6f, 0x76, 0x65, 0x72, 0x77, 0x72, 0x69, 0x74, 0x65];
                proof {
                    assert(w@ =~= self.bytes());
                }
                bytes_at(s, p, w.as_slice())
            },
            Word::Append => {
                let w: [u8; 6] = [0x61, 0x70, 0x70, 0x65, 0x6e, 0x64];
                proof {
                    assert(w@ =~= self.bytes());
                }
                bytes_at(s, p, w.as_slice())
            },
            Word::Prepend => {
                let w: [u8; 7] = [0x70, 0x72, 0x65, 0x70, 0x65, 0x6e, 0x64];
                proof {
                    assert(w@ =~= self.bytes());
                }
                bytes_at(s, p, w.as_slice())
            },
            Word::Insert => {
                let w: [u8; 6] = [0x69, 0x6e, 0x73, 0x65, 0x72, 0x74];
                proof {
                    assert(w@ =~= self.bytes());
                }
                bytes_at(s, p, w.as_slice())
            },
            Word::TripleBar => {
                let w: [u8; 3] = [0x7c, 0x7c, 0x7c];
                proof {
                    assert(w@ =~= self.bytes());
                }
                bytes_at(s, p, w.as_slice())
            },
        }
    }

    /// Whether `s` is exactly this word.
    pub fn is_whole(self, s: &[u8]) -> (r: bool)
        ensures
            r == (s@ == self.bytes()),
    {
        if s.len() != self.len() {
            return false;
        }
        let r = self.occurs_at(s, 0);
        proof {
            assert(s@.subrange(0, s@.len() as int) =~= s@);
        }
        r
    }
}

} // verus!
