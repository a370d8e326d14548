//! Decimal numerals, kept as they are written, and triples of them.

use vstd::prelude::*;
use crate::scan::{
    copy_bytes, copy_range, is_digit, run_end, skip_run, ByteClass, DIGIT_0, DOT, LOWER_E, MINUS, PLUS,
    UPPER_E,
};

verus! {

/// The position behind an optional sign at `p`.
pub open spec fn sign_end(s: Seq<u8>, p: int) -> int {
    if 0 <= p < s.len() && (s[p] == PLUS || s[p] == MINUS) {
        p + 1
    } else {
        p
    }
}

/// Whether `s` is a decimal numeral: an optional sign, digits with an optional
/// point among, before or behind them (at least one digit), and an optional
/// exponent, which is `e` or `E`, an optional sign and at least one digit.
pub open spec fn is_numeral(s: Seq<u8>) -> bool {
    let a = sign_end(s, 0);
    let b = run_end(s, a, ByteClass::Digit);
    let point = b < s.len() && s[b] == DOT;
    let c = if point { run_end(s, b + 1, ByteClass::Digit) } else { b };
    let digits = (b - a) + (if point { c - (b + 1) } else { 0 });
    &&& digits > 0
    &&& if c < s.len() && (s[c] == LOWER_E || s[c] == UPPER_E) {
        let d = sign_end(s, c + 1);
        let e = run_end(s, d, ByteClass::Digit);
        d < e && e == s.len()
    } else {
        c == s.len()
    }
}

fn skip_sign(s: &[u8], p: usize) -> (r: usize)
    requires
        p <= s@.len(),
    ensures
        r == sign_end(s@, p as int),
        p <= r <= s@.len(),
{
    if p < s.len() && (s[p] == PLUS || s[p] == MINUS) {
        p + 1
    } else {
        p
    }
}

/// Whether `s` is a decimal numeral.
pub fn check_numeral(s: &[u8]) -> (r: bool)
    ensures
        r == is_numeral(s@),
{
    let a = skip_sign(s, 0);
    let b = skip_run(s, a, ByteClass::Digit);
    let point = b < s.len() && s[b] == DOT;
    let c = if point { skip_run(s, b + 1, ByteClass::Digit) } else { b };
    let digits = (b - a) + (if point { c - (b + 1) } else { 0 });
    if digits == 0 {
        return false;
    }
    if c < s.len() && (s[c] == LOWER_E || s[c] == UPPER_E) {
        let d = skip_sign(s, c + 1);
        let e = skip_run(s, d, ByteClass::Digit);
        d < e && e == s.len()
    } else {
        c == s.len()
    }
}

/// Three numerals: the coordinates of a vector, or roll, pitch and yaw.
#[derive(Debug)]
pub struct Triple {
    pub x: Vec<u8>,
    pub y: Vec<u8>,
    pub z: Vec<u8>,
}

/// What a `Triple` holds.
pub struct TripleView {
    pub x: Seq<u8>,
    pub y: Seq<u8>,
    pub z: Seq<u8>,
}

impl View for Triple {
    type V = TripleView;

    open spec fn view(&self) -> TripleView {
        TripleView { x: self.x@, y: self.y@, z: self.z@ }
    }
}

impl TripleView {
    /// Each of the three is a numeral.
    pub open spec fn wf(self) -> bool {
        is_numeral(self.x) && is_numeral(self.y) && is_numeral(self.z)
    }

    /// The numerals `0 0 0`: no translation, no rotation.
    pub open spec fn zero() -> TripleView {
        TripleView { x: seq![DIGIT_0], y: seq![DIGIT_0], z: seq![DIGIT_0] }
    }

    /// The numerals `1 0 0`: the first coordinate axis.
    pub open spec fn unit_x() -> TripleView {
        TripleView { x: seq![49u8], y: seq![DIGIT_0], z: seq![DIGIT_0] }
    }
}

/// A single digit is a numeral.
pub proof fn lemma_digit_is_numeral(d: u8)
    requires
        is_digit(d),
    ensures
        is_numeral(seq![d]),
{
    reveal_with_fuel(run_end, 3);
}

/// The three numerals that `s` holds, apart by white space, with nothing but
/// white space around them; `None` where `s` is not made so.
pub open spec fn triple_of(s: Seq<u8>) -> Option<TripleView> {
    let x0 = run_end(s, 0, ByteClass::Space);
    let x1 = run_end(s, x0, ByteClass::Token);
    let y0 = run_end(s, x1, ByteClass::Space);
    let y1 = run_end(s, y0, ByteClass::Token);
    let z0 = run_end(s, y1, ByteClass::Space);
    let z1 = run_end(s, z0, ByteClass::Token);
    let t = TripleView { x: s.subrange(x0, x1), y: s.subrange(y0, y1), z: s.subrange(z0, z1) };
    if run_end(s, z1, ByteClass::Space) == s.len() && t.wf() {
        Some(t)
    } else {
        None
    }
}

impl Triple {
    /// The triple `0 0 0`.
    pub fn zero() -> (r: Triple)
        ensures
            r@ == TripleView::zero(),
            r@.wf(),
    {
        let r = Triple { x: vec![DIGIT_0], y: vec![DIGIT_0], z: vec![DIGIT_0] };
        proof {
            lemma_digit_is_numeral(DIGIT_0);
            assert(r.x@ =~= seq![DIGIT_0]);
            assert(r.y@ =~= seq![DIGIT_0]);
            assert(r.z@ =~= seq![DIGIT_0]);
        }
        r
    }

    /// The triple `1 0 0`.
    pub fn unit_x() -> (r: Triple)
        ensures
            r@ == TripleView::unit_x(),
            r@.wf(),
    {
        let r = Triple { x: vec![49u8], y: vec![DIGIT_0], z: vec![DIGIT_0] };
        proof {
            lemma_digit_is_numeral(DIGIT_0);
            lemma_digit_is_numeral(49u8);
            assert(r.x@ =~= seq![49u8]);
            assert(r.y@ =~= seq![DIGIT_0]);
            assert(r.z@ =~= seq![DIGIT_0]);
        }
        r
    }

    /// Reads three numerals apart by white space.
    pub fn parse(s: &[u8]) -> (r: Option<Triple>)
        ensures
            r matches Some(t) ==> triple_of(s@) == Some(t@),
            r is None <==> triple_of(s@) is None,
    {
        let x0 = skip_run(s, 0, ByteClass::Space);
        let x1 = skip_run(s, x0, ByteClass::Token);
        let y0 = skip_run(s, x1, ByteClass::Space);
        let y1 = skip_run(s, y0, ByteClass::Token);
        let z0 = skip_run(s, y1, ByteClass::Space);
        let z1 = skip_run(s, z0, ByteClass::Token);
        if skip_run(s, z1, ByteClass::Space) != s.len() {
            return None;
        }
        let x = copy_range(s, x0, x1);
        let y = copy_range(s, y0, y1);
        let z = copy_range(s, z0, z1);
        if check_numeral(x.as_slice()) && check_numeral(y.as_slice()) && check_numeral(
            z.as_slice(),
        ) {
            Some(Triple { x, y, z })
        } else {
            None
        }
    }

    /// Whether each of the three is a numeral.
    pub fn is_valid(&self) -> (r: bool)
        ensures
            r == self@.wf(),
    {
        check_numeral(self.x.as_slice()) && check_numeral(self.y.as_slice()) && check_numeral(
            self.z.as_slice(),
        )
    }

    /// A copy of the triple.
    pub fn duplicate(&self) -> (r: Triple)
        ensures
            r@ == self@,
    {
        Triple {
            x: copy_bytes(self.x.as_slice()),
            y: copy_bytes(self.y.as_slice()),
            z: copy_bytes(self.z.as_slice()),
        }
    }
}

} // verus!
