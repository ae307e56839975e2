//! Byte-level helpers shared by the recognisers: prefix tests, maximal runs
//! of a byte class, and searches for a delimiter.
use vstd::prelude::*;

verus! {

/// ASCII letters.
pub open spec fn is_alpha(b: u8) -> bool {
    (0x41 <= b && b <= 0x5a) || (0x61 <= b && b <= 0x7a)
}

/// ASCII letters and digits.
pub open spec fn is_alnum(b: u8) -> bool {
    is_alpha(b) || (0x30 <= b && b <= 0x39)
}

/// Horizontal whitespace: space and tab.
pub open spec fn is_blank(b: u8) -> bool {
    b == 0x20 || b == 0x09
}

/// Space, tab or newline.
pub open spec fn is_ws(b: u8) -> bool {
    is_blank(b) || b == 0x0a
}

/// `t` occurs in `s` starting at position `p`.
pub open spec fn starts_at(s: Seq<u8>, p: int, t: Seq<u8>) -> bool {
    0 <= p && p + t.len() <= s.len() && s.subrange(p, p + t.len()) == t
}

/// The end of the maximal run of bytes satisfying `f` that starts at `p`.
pub open spec fn run_end(s: Seq<u8>, p: int, f: spec_fn(u8) -> bool) -> int
    decreases s.len() - p,
{
    if 0 <= p < s.len() && f(s[p]) {
        run_end(s, p + 1, f)
    } else {
        p
    }
}

/// The first position at or after `p` where `t` occurs in `s`.
pub open spec fn find_from(s: Seq<u8>, p: int, t: Seq<u8>) -> Option<int>
    decreases s.len() + 1 - p,
{
    if p < 0 || p + t.len() > s.len() {
        None
    } else if starts_at(s, p, t) {
        Some(p)
    } else {
        find_from(s, p + 1, t)
    }
}

pub proof fn lemma_run_end_bounds(s: Seq<u8>, p: int, f: spec_fn(u8) -> bool)
    requires
        0 <= p <= s.len(),
    ensures
        p <= run_end(s, p, f) <= s.len(),
        forall|k: int| p <= k < run_end(s, p, f) ==> f(#[trigger] s[k]),
        run_end(s, p, f) < s.len() ==> !f(s[run_end(s, p, f)]),
    decreases s.len() - p,
{
    if p < s.len() && f(s[p]) {
        lemma_run_end_bounds(s, p + 1, f);
    }
}

pub proof fn lemma_find_from_bounds(s: Seq<u8>, p: int, t: Seq<u8>)
    requires
        0 <= p,
    ensures
        find_from(s, p, t) matches Some(q) ==> p <= q && q + t.len() <= s.len() && starts_at(s, q, t),
        find_from(s, p, t) matches Some(q) ==> forall|k: int| p <= k < q ==> !starts_at(s, k, t),
        find_from(s, p, t) is None ==> forall|k: int| p <= k ==> !starts_at(s, k, t),
    decreases s.len() + 1 - p,
{
    if p + t.len() > s.len() {
    } else if starts_at(s, p, t) {
    } else {
        lemma_find_from_bounds(s, p + 1, t);
    }
}

/// Whether `t` occurs in `s` at position `p`.
pub fn bytes_at(s: &[u8], p: usize, t: &[u8]) -> (r: bool)
    ensures
        r == starts_at(s@, p as int, t@),
{
    if p > s.len() || t.len() > s.len() - p {
        return false;
    }
    let mut i: usize = 0;
    while i < t.len()
        invariant
            p + t@.len() <= s@.len(),
            s@.len() == s.len(),
            0 <= i <= t@.len(),
            forall|k: int| 0 <= k < i ==> s@[p + k] == t@[k],
        decreases t@.len() - i,
    {
        if s[p + i] != t[i] {
            proof {
                assert(s@.subrange(p as int, p + t@.len())[i as int] != t@[i as int]);
            }
            return false;
        }
        i = i + 1;
    }
    assert(s@.subrange(p as int, p + t@.len()) =~= t@);
    true
}

/// A class of bytes that a maximal run can be taken of.
#[derive(Clone, Copy)]
pub enum ByteClass {
    Alpha,
    Alnum,
    Blank,
    Space,
    Exactly(u8),
}

impl ByteClass {
    pub open spec fn holds(self, b: u8) -> bool {
        match self {
            ByteClass::Alpha => is_alpha(b),
            ByteClass::Alnum => is_alnum(b),
            ByteClass::Blank => is_blank(b),
            ByteClass::Space => is_ws(b),
            ByteClass::Exactly(x) => b == x,
        }
    }

    pub open spec fn pred(self) -> spec_fn(u8) -> bool {
        |b: u8| self.holds(b)
    }

    pub fn test(self, b: u8) -> (r: bool)
        ensures
            r == self.holds(b),
    {
        match self {
            ByteClass::Alpha => (0x41 <= b && b <= 0x5a) || (0x61 <= b && b <= 0x7a),
            ByteClass::Alnum => (0x41 <= b && b <= 0x5a) || (0x61 <= b && b <= 0x7a) || (0x30
                <= b && b <= 0x39),
            ByteClass::Blank => b == 0x20 || b == 0x09,
            ByteClass::Space => b == 0x20 || b == 0x09 || b == 0x0a,
            ByteClass::Exactly(x) => b == x,
        }
    }
}

/// The end of the maximal run of bytes of class `c` starting at `p`.
pub fn skip_class(s: &[u8], p: usize, c: ByteClass) -> (r: usize)
    requires
        p <= s@.len(),
    ensures
        r as int == run_end(s@, p as int, c.pred()),
        p <= r <= s@.len(),
{
    let mut i = p;
    while i < s.len() && c.test(s[i])
        invariant
            p <= i <= s@.len(),
            s@.len() == s.len(),
            run_end(s@, i as int, c.pred()) == run_end(s@, p as int, c.pred()),
        decreases s@.len() - i,
    {
        i = i + 1;
    }
    i
}

/// The first position at or after `p` where `t` occurs in `s`.
pub fn find_bytes(s: &[u8], p: usize, t: &[u8]) -> (r: Option<usize>)
    ensures
        r matches Some(q) ==> find_from(s@, p as int, t@) == Some(q as int),
        r is None ==> find_from(s@, p as int, t@) is None,
{
    let mut i = p;
    while i <= s.len() && t.len() <= s.len() - i
        invariant
            p <= i,
            s@.len() == s.len(),
            find_from(s@, i as int, t@) == find_from(s@, p as int, t@),
        decreases s@.len() + 1 - i,
    {
        if bytes_at(s, i, t) {
            return Some(i);
        }
        proof {
            if i == s.len() {
                assert(s@.subrange(i as int, i as int) =~= t@);
            }
        }
        i = i + 1;
    }
    None
}

} // verus!
