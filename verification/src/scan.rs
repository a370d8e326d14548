//! Runs of bytes of one class, and comparison of byte strings.

use vstd::prelude::*;

verus! {

pub const TAB: u8 = 9;
pub const LINE_FEED: u8 = 10;
pub const CARRIAGE_RETURN: u8 = 13;
pub const SPACE: u8 = 32;
pub const BANG: u8 = 33;
pub const DOUBLE_QUOTE: u8 = 34;
pub const SINGLE_QUOTE: u8 = 39;
pub const PLUS: u8 = 43;
pub const MINUS: u8 = 45;
pub const DOT: u8 = 46;
pub const SLASH: u8 = 47;
pub const DIGIT_0: u8 = 48;
pub const DIGIT_9: u8 = 57;
pub const COLON: u8 = 58;
pub const LESS_THAN: u8 = 60;
pub const EQUALS: u8 = 61;
pub const GREATER_THAN: u8 = 62;
pub const QUESTION: u8 = 63;
pub const UPPER_A: u8 = 65;
pub const UPPER_E: u8 = 69;
pub const UPPER_Z: u8 = 90;
pub const UNDERSCORE: u8 = 95;
pub const LOWER_A: u8 = 97;
pub const LOWER_E: u8 = 101;
pub const LOWER_Z: u8 = 122;
pub const FIRST_NON_ASCII: u8 = 128;

/// A set of bytes that a run is made of.
#[derive(Clone, Copy, Debug, PartialEq, Eq, Structural)]
pub enum ByteClass {
    /// Space, tab, line feed, carriage return.
    Space,
    /// Anything but the bytes of `Space`.
    Token,
    /// The decimal digits.
    Digit,
    /// Letters, digits, `_`, `:`, `-`, `.`, and every byte outside ASCII.
    Name,
    /// Anything but `<`.
    Text,
    /// Anything but `"` and `<`.
    DoubleQuoted,
    /// Anything but `'` and `<`.
    SingleQuoted,
    /// Anything but `>`.
    Declaration,
}

pub open spec fn is_space(b: u8) -> bool {
    b == SPACE || b == TAB || b == LINE_FEED || b == CARRIAGE_RETURN
}

pub open spec fn is_digit(b: u8) -> bool {
    DIGIT_0 <= b <= DIGIT_9
}

pub open spec fn is_name_byte(b: u8) -> bool {
    ||| LOWER_A <= b <= LOWER_Z
    ||| UPPER_A <= b <= UPPER_Z
    ||| is_digit(b)
    ||| b == UNDERSCORE
    ||| b == COLON
    ||| b == MINUS
    ||| b == DOT
    ||| b >= FIRST_NON_ASCII
}

impl ByteClass {
    /// Whether `b` belongs to the class.
    pub open spec fn spec_holds(self, b: u8) -> bool {
        match self {
            ByteClass::Space => is_space(b),
            ByteClass::Token => !is_space(b),
            ByteClass::Digit => is_digit(b),
            ByteClass::Name => is_name_byte(b),
            ByteClass::Text => b != LESS_THAN,
            ByteClass::DoubleQuoted => b != DOUBLE_QUOTE && b != LESS_THAN,
            ByteClass::SingleQuoted => b != SINGLE_QUOTE && b != LESS_THAN,
            ByteClass::Declaration => b != GREATER_THAN,
        }
    }

    #[verifier::when_used_as_spec(spec_holds)]
    pub fn holds(self, b: u8) -> (r: bool)
        ensures
            r == self.spec_holds(b),
    {
        let space = b == SPACE || b == TAB || b == LINE_FEED || b == CARRIAGE_RETURN;
        let digit = DIGIT_0 <= b && b <= DIGIT_9;
        match self {
            ByteClass::Space => space,
            ByteClass::Token => !space,
            ByteClass::Digit => digit,
            ByteClass::Name => {
                (LOWER_A <= b && b <= LOWER_Z) || (UPPER_A <= b && b <= UPPER_Z) || digit
                    || b == UNDERSCORE || b == COLON || b == MINUS || b == DOT
                    || b >= FIRST_NON_ASCII
            },
            ByteClass::Text => b != LESS_THAN,
            ByteClass::DoubleQuoted => b != DOUBLE_QUOTE && b != LESS_THAN,
            ByteClass::SingleQuoted => b != SINGLE_QUOTE && b != LESS_THAN,
            ByteClass::Declaration => b != GREATER_THAN,
        }
    }
}

/// The end of the longest run of bytes of class `c` that starts at `p`:
/// `p` itself where the byte at `p` is not of the class or `p` is no position of `s`.
pub open spec fn run_end(s: Seq<u8>, p: int, c: ByteClass) -> int
    decreases s.len() - p,
{
    if 0 <= p < s.len() && c.holds(s[p]) {
        run_end(s, p + 1, c)
    } else {
        p
    }
}

/// A run ends where it says: every byte from `p` up to the end is of the
/// class, and the byte at the end, if there is one, is not.
pub proof fn lemma_run_end(s: Seq<u8>, p: int, c: ByteClass)
    requires
        0 <= p <= s.len(),
    ensures
        p <= run_end(s, p, c) <= s.len(),
        forall|k: int| p <= k < run_end(s, p, c) ==> c.holds(#[trigger] s[k]),
        run_end(s, p, c) < s.len() ==> !c.holds(s[run_end(s, p, c)]),
    decreases s.len() - p,
{
    if p < s.len() && c.holds(s[p]) {
        lemma_run_end(s, p + 1, c);
    }
}

/// The position `r` that ends a run of class `c` from `p` is the end of that run.
pub proof fn lemma_run_end_unique(s: Seq<u8>, p: int, r: int, c: ByteClass)
    requires
        0 <= p <= r <= s.len(),
        forall|k: int| p <= k < r ==> c.holds(#[trigger] s[k]),
        r < s.len() ==> !c.holds(s[r]),
    ensures
        run_end(s, p, c) == r,
    decreases r - p,
{
    if p < r {
        lemma_run_end_unique(s, p + 1, r, c);
    }
}

/// Skips the longest run of bytes of class `c` from `p`.
pub fn skip_run(s: &[u8], p: usize, c: ByteClass) -> (r: usize)
    ensures
        r == run_end(s@, p as int, c),
        p <= r,
        p <= s@.len() ==> r <= s@.len(),
{
    let mut i: usize = p;
    while i < s.len() && c.holds(s[i])
        invariant
            p <= i,
            p <= s@.len() ==> i <= s@.len(),
            run_end(s@, p as int, c) == run_end(s@, i as int, c),
        decreases s@.len() - i,
    {
        i += 1;
    }
    i
}

/// Whether `word` stands in `s` at `p`.
pub open spec fn starts_with(s: Seq<u8>, p: int, word: Seq<u8>) -> bool {
    0 <= p && p + word.len() <= s.len() && s.subrange(p, p + word.len()) == word
}

/// The first position from `p` on where `word` stands in `s`; the length of
/// `s` where it stands nowhere.
pub open spec fn find(s: Seq<u8>, p: int, word: Seq<u8>) -> int
    decreases s.len() - p,
{
    if p < 0 || p >= s.len() || p + word.len() > s.len() {
        s.len() as int
    } else if starts_with(s, p, word) {
        p
    } else {
        find(s, p + 1, word)
    }
}

/// Where `find` points, the word stands, and nowhere before it from `p` on.
pub proof fn lemma_find(s: Seq<u8>, p: int, word: Seq<u8>)
    requires
        0 <= p <= s.len(),
    ensures
        p <= find(s, p, word) <= s.len(),
        find(s, p, word) < s.len() ==> starts_with(s, find(s, p, word), word),
        forall|k: int| p <= k < find(s, p, word) ==> !starts_with(s, k, word),
    decreases s.len() - p,
{
    if p < s.len() && p + word.len() <= s.len() && !starts_with(s, p, word) {
        lemma_find(s, p + 1, word);
    }
}

/// Whether two byte strings are equal.
pub fn bytes_eq(a: &[u8], b: &[u8]) -> (r: bool)
    ensures
        r == (a@ == b@),
{
    if a.len() != b.len() {
        return false;
    }
    let mut i: usize = 0;
    while i < a.len()
        invariant
            a@.len() == b@.len(),
            i <= a@.len(),
            forall|k: int| 0 <= k < i ==> a@[k] == b@[k],
        decreases a@.len() - i,
    {
        if a[i] != b[i] {
            return false;
        }
        i += 1;
    }
    assert(a@ =~= b@);
    true
}

/// Whether the bytes of `s` from `start` up to `end` are those of `word`.
pub(crate) fn range_is(s: &[u8], start: usize, end: usize, word: &[u8]) -> (r: bool)
    requires
        start <= end <= s@.len(),
    ensures
        r == (s@.subrange(start as int, end as int) == word@),
{
    bytes_eq(vstd::slice::slice_subrange(s, start, end), word)
}

/// Whether `word` stands in `s` at `p`.
pub fn has_word_at(s: &[u8], p: usize, word: &[u8]) -> (r: bool)
    ensures
        r == starts_with(s@, p as int, word@),
{
    if p > s.len() || word.len() > s.len() - p {
        return false;
    }
    range_is(s, p, p + word.len(), word)
}

/// The first position from `p` on where `word` stands in `s`.
pub fn find_word(s: &[u8], p: usize, word: &[u8]) -> (r: usize)
    ensures
        r == find(s@, p as int, word@),
        r <= s@.len(),
        p <= s@.len() ==> p <= r,
{
    if p > s.len() {
        return s.len();
    }
    let mut i: usize = p;
    while i < s.len() && word.len() <= s.len() - i
        invariant
            p <= i <= s@.len(),
            find(s@, p as int, word@) == find(s@, i as int, word@),
        decreases s@.len() - i,
    {
        if has_word_at(s, i, word) {
            return i;
        }
        i += 1;
    }
    s.len()
}

/// A copy of the bytes of `s` from `start` up to `end`.
pub(crate) fn copy_range(s: &[u8], start: usize, end: usize) -> (r: Vec<u8>)
    requires
        start <= end <= s@.len(),
    ensures
        r@ == s@.subrange(start as int, end as int),
{
    vstd::slice::slice_to_vec(vstd::slice::slice_subrange(s, start, end))
}

/// A copy of a byte string.
pub fn copy_bytes(s: &[u8]) -> (r: Vec<u8>)
    ensures
        r@ == s@,
{
    vstd::slice::slice_to_vec(s)
}

} // verus!
