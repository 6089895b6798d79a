use vstd::prelude::*;

use crate::text::{chars_of, int_text, nat_text, push_char, push_int, push_nat, push_seq, push_str};
use crate::tokenizer::Token;

verus! {

/// A scalar value, or a reference to a nested container by its id.
#[derive(Debug, Hash)]
pub enum Atom {
    Symbol(String),
    Keyword(String),
    Int(i64),
    /// A floating-point literal, kept as the text it was written with.
    Float(String),
    String(String),
    Boolean(bool),
    Reference(usize),
}

/// What an [`Atom`] holds, as mathematical values.
pub enum AtomView {
    Symbol(Seq<char>),
    Keyword(Seq<char>),
    Int(int),
    Float(Seq<char>),
    Text(Seq<char>),
    Boolean(bool),
    Reference(nat),
}

impl View for Atom {
    type V = AtomView;

    open spec fn view(&self) -> AtomView {
        match self {
            Atom::Symbol(s) => AtomView::Symbol(s@),
            Atom::Keyword(s) => AtomView::Keyword(s@),
            Atom::Int(v) => AtomView::Int(*v as int),
            Atom::Float(s) => AtomView::Float(s@),
            Atom::String(s) => AtomView::Text(s@),
            Atom::Boolean(b) => AtomView::Boolean(*b),
            Atom::Reference(n) => AtomView::Reference(*n as nat),
        }
    }
}

impl PartialEq for Atom {
    fn eq(&self, other: &Atom) -> (r: bool)
        ensures
            r == (self@ == other@),
    {
        match (self, other) {
            (Atom::Symbol(a), Atom::Symbol(b)) => a.eq(b),
            (Atom::Keyword(a), Atom::Keyword(b)) => a.eq(b),
            (Atom::Int(a), Atom::Int(b)) => *a == *b,
            (Atom::Float(a), Atom::Float(b)) => a.eq(b),
            (Atom::String(a), Atom::String(b)) => a.eq(b),
            (Atom::Boolean(a), Atom::Boolean(b)) => *a == *b,
            (Atom::Reference(a), Atom::Reference(b)) => *a == *b,
            _ => false,
        }
    }
}

impl vstd::std_specs::cmp::PartialEqSpecImpl for Atom {
    open spec fn obeys_eq_spec() -> bool {
        true
    }

    open spec fn eq_spec(&self, other: &Atom) -> bool {
        self@ == other@
    }
}

pub open spec fn is_digit(c: char) -> bool {
    '0' <= c <= '9'
}

pub open spec fn all_digits(s: Seq<char>) -> bool {
    forall|i: int| 0 <= i < s.len() ==> is_digit(#[trigger] s[i])
}

pub open spec fn digit_value(c: char) -> int {
    c as int - '0' as int
}

/// The number that the digits of `s` spell in base 10.
pub open spec fn digits_value(s: Seq<char>) -> int
    decreases s.len(),
{
    if s.len() == 0 {
        0
    } else {
        digits_value(s.drop_last()) * 10 + digit_value(s.last())
    }
}

pub open spec fn is_sign(c: char) -> bool {
    c == '+' || c == '-'
}

/// `t` without a leading sign character.
pub open spec fn unsigned_part(t: Seq<char>) -> Seq<char> {
    if t.len() > 0 && is_sign(t[0]) {
        t.drop_first()
    } else {
        t
    }
}

/// The value of `t` read as an optionally signed base-10 integer, if it is one.
pub open spec fn integer_value(t: Seq<char>) -> Option<int> {
    let d = unsigned_part(t);
    if d.len() > 0 && all_digits(d) {
        if t[0] == '-' {
            Some(-digits_value(d))
        } else {
            Some(digits_value(d))
        }
    } else {
        None
    }
}

/// Whether `t` parses as a signed 64-bit integer.
pub open spec fn is_i64_text(t: Seq<char>) -> bool {
    integer_value(t) is Some && i64::MIN <= integer_value(t)->0 <= i64::MAX
}

/// Digits with at most one decimal point, and at least one digit.
pub open spec fn is_mantissa(m: Seq<char>) -> bool {
    (m.len() > 0 && all_digits(m)) || exists|k: int|
        0 <= k < m.len() && m.len() >= 2 && #[trigger] m[k] == '.' && all_digits(m.take(k))
            && all_digits(m.skip(k + 1))
}

/// `e` or `E`, an optional sign, then at least one digit.
pub open spec fn is_exponent(x: Seq<char>) -> bool {
    x.len() >= 2 && (x[0] == 'e' || x[0] == 'E') && ((all_digits(x.skip(1))) || (is_sign(x[1])
        && x.len() >= 3 && all_digits(x.skip(2))))
}

pub open spec fn is_number(b: Seq<char>) -> bool {
    is_mantissa(b) || exists|k: int|
        0 <= k <= b.len() && #[trigger] is_mantissa(b.take(k)) && is_exponent(b.skip(k))
}

/// `b` spells `lower` with each letter in either case.
pub open spec fn spells(b: Seq<char>, lower: Seq<char>, upper: Seq<char>) -> bool {
    b.len() == lower.len() && forall|i: int|
        0 <= i < b.len() ==> #[trigger] b[i] == lower[i] || b[i] == upper[i]
}

/// `inf`, `infinity` or `nan`, in any case.
pub open spec fn is_special_float(b: Seq<char>) -> bool {
    spells(b, seq!['i', 'n', 'f'], seq!['I', 'N', 'F']) || spells(
        b,
        seq!['i', 'n', 'f', 'i', 'n', 'i', 't', 'y'],
        seq!['I', 'N', 'F', 'I', 'N', 'I', 'T', 'Y'],
    ) || spells(b, seq!['n', 'a', 'n'], seq!['N', 'A', 'N'])
}

/// Whether `t` is in the syntax of a floating-point literal: an optional sign,
/// then `inf`, `infinity`, `nan` or a decimal number with an optional exponent.
pub open spec fn is_float_text(t: Seq<char>) -> bool {
    let b = unsigned_part(t);
    is_special_float(b) || is_number(b)
}

pub open spec fn true_text() -> Seq<char> {
    seq!['t', 'r', 'u', 'e']
}

pub open spec fn false_text() -> Seq<char> {
    seq!['f', 'a', 'l', 's', 'e']
}

/// The atom that a token's text stands for.
pub open spec fn infer_view(t: Seq<char>) -> AtomView {
    if t == true_text() {
        AtomView::Boolean(true)
    } else if t == false_text() {
        AtomView::Boolean(false)
    } else if is_i64_text(t) {
        AtomView::Int(integer_value(t)->0)
    } else if is_float_text(t) {
        AtomView::Float(t)
    } else {
        AtomView::Symbol(t)
    }
}

/// How an atom is written in a rendered node.
pub open spec fn atom_text(a: AtomView) -> Seq<char> {
    match a {
        AtomView::Symbol(s) => s,
        AtomView::Keyword(s) => s,
        AtomView::Int(v) => int_text(v),
        AtomView::Float(s) => s,
        AtomView::Text(s) => s,
        AtomView::Boolean(b) => if b {
            true_text()
        } else {
            false_text()
        },
        AtomView::Reference(n) => seq!['%'] + nat_text(n),
    }
}

/// Reads `t` as a signed 64-bit integer.
fn parse_i64(t: &Vec<char>) -> (r: Option<i64>)
    ensures
        r is Some <==> is_i64_text(t@),
        r is Some ==> r->0 as int == integer_value(t@)->0,
{
    let n = t.len();
    if n == 0 {
        return None;
    }
    let neg = t[0] == '-';
    let start: usize = if t[0] == '+' || t[0] == '-' {
        1
    } else {
        0
    };
    proof {
        assert(unsigned_part(t@) =~= t@.subrange(start as int, n as int));
    }
    if start >= n {
        return None;
    }
    let mut acc: u64 = 0;
    let mut over = false;
    let mut i: usize = start;
    while i < n
        invariant
            start <= i <= n,
            n == t.len(),
            unsigned_part(t@) == t@.subrange(start as int, n as int),
            all_digits(t@.subrange(start as int, i as int)),
            !over ==> acc == digits_value(t@.subrange(start as int, i as int)),
            !over ==> acc <= 0x8000_0000_0000_0000,
            over ==> digits_value(t@.subrange(start as int, i as int)) > 0x8000_0000_0000_0000,
        decreases n - i,
    {
        let c = t[i];
        let ghost pre = t@.subrange(start as int, i as int);
        let ghost post = t@.subrange(start as int, i as int + 1);
        assert(post.drop_last() =~= pre);
        if !('0' <= c && c <= '9') {
            assert(!all_digits(t@.subrange(start as int, n as int))) by {
                assert(t@.subrange(start as int, n as int)[i - start] == c);
            }
            assert(unsigned_part(t@) == t@.subrange(start as int, n as int));
            assert(integer_value(t@) is None);
            return None;
        }
        let d: u64 = (c as u32 - '0' as u32) as u64;
        assert(d as int == digit_value(c));
        if !over {
            if acc > (0x8000_0000_0000_0000 - d) / 10 {
                over = true;
                assert(acc * 10 + d > 0x8000_0000_0000_0000) by (nonlinear_arith)
                    requires
                        acc > (0x8000_0000_0000_0000 - d) / 10,
                        d < 10,
                ;
            } else {
                assert(acc * 10 + d <= 0x8000_0000_0000_0000) by (nonlinear_arith)
                    requires
                        acc <= (0x8000_0000_0000_0000 - d) / 10,
                        d < 10,
                ;
                acc = acc * 10 + d;
            }
        }
        i += 1;
        assert(all_digits(t@.subrange(start as int, i as int))) by {
            assert forall|j: int| 0 <= j < post.len() implies is_digit(#[trigger] post[j]) by {
                if j < pre.len() {
                    assert(post[j] == pre[j]);
                }
            }
        }
    }
    assert(t@.subrange(start as int, n as int) =~= unsigned_part(t@));
    if over {
        return None;
    }
    if neg {
        if acc == 0x8000_0000_0000_0000 {
            Some(i64::MIN)
        } else {
            Some(-(acc as i64))
        }
    } else if acc > 0x7fff_ffff_ffff_ffff {
        None
    } else {
        Some(acc as i64)
    }
}

/// The first index in `lo..hi` that holds no digit, or `hi`.
fn first_non_digit(t: &Vec<char>, lo: usize, hi: usize) -> (p: usize)
    requires
        lo <= hi <= t.len(),
    ensures
        lo <= p <= hi,
        all_digits(t@.subrange(lo as int, p as int)),
        p < hi ==> !is_digit(t@[p as int]),
{
    let mut p = lo;
    while p < hi && '0' <= t[p] && t[p] <= '9'
        invariant
            lo <= p <= hi <= t.len(),
            all_digits(t@.subrange(lo as int, p as int)),
        decreases hi - p,
    {
        p += 1;
        assert forall|j: int| 0 <= j < p - lo implies is_digit(
            #[trigger] t@.subrange(lo as int, p as int)[j],
        ) by {
            if j < p - 1 - lo {
                assert(t@.subrange(lo as int, p as int)[j] == t@.subrange(
                    lo as int,
                    p - 1,
                )[j]);
            }
        }
    }
    p
}

/// Whether `t[lo..hi]` holds digits only.
fn digits_only(t: &Vec<char>, lo: usize, hi: usize) -> (r: bool)
    requires
        lo <= hi <= t.len(),
    ensures
        r == all_digits(t@.subrange(lo as int, hi as int)),
{
    let p = first_non_digit(t, lo, hi);
    if p < hi {
        assert(t@.subrange(lo as int, hi as int)[p - lo] == t@[p as int]);
    }
    p == hi
}

/// Whether `t[lo..hi]` is a mantissa.
fn mantissa_ok(t: &Vec<char>, lo: usize, hi: usize) -> (r: bool)
    requires
        lo <= hi <= t.len(),
    ensures
        r == is_mantissa(t@.subrange(lo as int, hi as int)),
{
    let ghost m = t@.subrange(lo as int, hi as int);
    let p = first_non_digit(t, lo, hi);
    if p == hi {
        if hi == lo {
            assert(m.len() == 0);
        }
        return hi > lo;
    }
    assert(m[p - lo] == t@[p as int]);
    assert(!all_digits(m));
    let k: Ghost<int> = Ghost(p - lo);
    assert(m.take(k@) =~= t@.subrange(lo as int, p as int));
    assert(m.skip(k@ + 1) =~= t@.subrange(p + 1, hi as int));
    // a decimal point can only stand where the leading digits end
    assert forall|j: int|
        0 <= j < m.len() && #[trigger] m[j] == '.' && all_digits(m.take(j)) implies j == k@ by {
        if j > k@ {
            assert(m.take(j)[k@] == m[k@]);
        }
        if j < k@ {
            assert(t@.subrange(lo as int, p as int)[j] == m[j]);
        }
    }
    if t[p] != '.' {
        return false;
    }
    let rest = digits_only(t, p + 1, hi);
    rest && hi - lo >= 2
}

/// The first index in `lo..hi` that holds `e` or `E`, or `hi`.
fn find_exponent(t: &Vec<char>, lo: usize, hi: usize) -> (p: usize)
    requires
        lo <= hi <= t.len(),
    ensures
        lo <= p <= hi,
        forall|j: int| lo <= j < p ==> t@[j] != 'e' && t@[j] != 'E',
        p < hi ==> (t@[p as int] == 'e' || t@[p as int] == 'E'),
{
    let mut p = lo;
    while p < hi && t[p] != 'e' && t[p] != 'E'
        invariant
            lo <= p <= hi <= t.len(),
            forall|j: int| lo <= j < p ==> t@[j] != 'e' && t@[j] != 'E',
        decreases hi - p,
    {
        p += 1;
    }
    p
}

proof fn lemma_mantissa_has_no_exponent_mark(m: Seq<char>, i: int)
    requires
        is_mantissa(m),
        0 <= i < m.len(),
    ensures
        m[i] != 'e' && m[i] != 'E',
{
    if !all_digits(m) {
        let k = choose|k: int|
            0 <= k < m.len() && m.len() >= 2 && #[trigger] m[k] == '.' && all_digits(m.take(k))
                && all_digits(m.skip(k + 1));
        if i < k {
            assert(m.take(k)[i] == m[i]);
        } else if i > k {
            assert(m.skip(k + 1)[i - k - 1] == m[i]);
        }
    }
}

/// Whether `t[lo..hi]` is an exponent.
fn exponent_ok(t: &Vec<char>, lo: usize, hi: usize) -> (r: bool)
    requires
        lo <= hi <= t.len(),
    ensures
        r == is_exponent(t@.subrange(lo as int, hi as int)),
{
    let ghost x = t@.subrange(lo as int, hi as int);
    if hi - lo < 2 {
        return false;
    }
    if t[lo] != 'e' && t[lo] != 'E' {
        return false;
    }
    assert(x.skip(1) =~= t@.subrange(lo + 1, hi as int));
    assert(x.skip(2) =~= t@.subrange(lo + 2, hi as int));
    if digits_only(t, lo + 1, hi) {
        return true;
    }
    assert(x[1] == t@[lo + 1]);
    if t[lo + 1] == '+' || t[lo + 1] == '-' {
        hi - lo >= 3 && digits_only(t, lo + 2, hi)
    } else {
        false
    }
}

/// Whether `t[lo..hi]` is a decimal number with an optional exponent.
fn number_ok(t: &Vec<char>, lo: usize, hi: usize) -> (r: bool)
    requires
        lo <= hi <= t.len(),
    ensures
        r == is_number(t@.subrange(lo as int, hi as int)),
{
    let ghost b = t@.subrange(lo as int, hi as int);
    let p = find_exponent(t, lo, hi);
    if p == hi {
        let r = mantissa_ok(t, lo, hi);
        assert forall|k: int| 0 <= k <= b.len() && #[trigger] is_mantissa(b.take(k)) implies !is_exponent(
            b.skip(k),
        ) by {
            if k < b.len() {
                assert(b.skip(k)[0] == t@[lo + k]);
            }
        }
        return r;
    }
    let ghost k0 = p - lo;
    assert(b.take(k0) =~= t@.subrange(lo as int, p as int));
    assert(b.skip(k0) =~= t@.subrange(p as int, hi as int));
    assert(b[k0] == t@[p as int]);
    proof {
        if is_mantissa(b) {
            lemma_mantissa_has_no_exponent_mark(b, k0);
        }
    }
    assert forall|k: int|
        0 <= k <= b.len() && k != k0 && #[trigger] is_mantissa(b.take(k)) implies !is_exponent(
        b.skip(k),
    ) by {
        if k > k0 {
            assert(b.take(k)[k0] == b[k0]);
            lemma_mantissa_has_no_exponent_mark(b.take(k), k0);
        } else if k < b.len() {
            assert(b.skip(k)[0] == t@[lo + k]);
        }
    }
    mantissa_ok(t, lo, p) && exponent_ok(t, p, hi)
}

/// Whether `t[lo..]` spells `lower` with each letter in either case.
fn spells_at(t: &Vec<char>, lo: usize, lower: &Vec<char>, upper: &Vec<char>) -> (r: bool)
    requires
        lo <= t.len(),
        lower.len() == upper.len(),
    ensures
        r == spells(t@.skip(lo as int), lower@, upper@),
{
    if t.len() - lo != lower.len() {
        return false;
    }
    let mut i: usize = 0;
    while i < lower.len()
        invariant
            i <= lower.len() == upper.len() == t.len() - lo,
            forall|j: int| 0 <= j < i ==> t@[lo + j] == lower@[j] || t@[lo + j] == upper@[j],
        decreases lower.len() - i,
    {
        if t[lo + i] != lower[i] && t[lo + i] != upper[i] {
            assert(t@.skip(lo as int)[i as int] == t@[lo + i]);
            return false;
        }
        i += 1;
    }
    assert forall|j: int| 0 <= j < lower.len() implies #[trigger] t@.skip(lo as int)[j]
        == lower@[j] || t@.skip(lo as int)[j] == upper@[j] by {
        assert(t@.skip(lo as int)[j] == t@[lo + j]);
    }
    true
}

/// Whether `t` is in the syntax of a floating-point literal.
fn float_syntax(t: &Vec<char>) -> (r: bool)
    ensures
        r == is_float_text(t@),
{
    let n = t.len();
    let start: usize = if n > 0 && (t[0] == '+' || t[0] == '-') {
        1
    } else {
        0
    };
    assert(unsigned_part(t@) =~= t@.skip(start as int));
    assert(t@.skip(start as int) =~= t@.subrange(start as int, n as int));
    let special = spells_at(t, start, &vec!['i', 'n', 'f'], &vec!['I', 'N', 'F'])
        || spells_at(
        t,
        start,
        &vec!['i', 'n', 'f', 'i', 'n', 'i', 't', 'y'],
        &vec!['I', 'N', 'F', 'I', 'N', 'I', 'T', 'Y'],
    ) || spells_at(t, start, &vec!['n', 'a', 'n'], &vec!['N', 'A', 'N']);
    special || number_ok(t, start, n)
}

impl Atom {
    /// The atom that a token stands for: a boolean for `true` and `false`, an
    /// integer where the text is one that fits in 64 bits, a float where it is
    /// in the syntax of one, and otherwise a symbol holding the text.
    pub fn infer(src: &Token) -> (r: Atom)
        ensures
            r@ == infer_view(src@),
    {
        let t = chars_of(src.value.as_str());
        let is_true = t.len() == 4 && t[0] == 't' && t[1] == 'r' && t[2] == 'u' && t[3] == 'e';
        let is_false = t.len() == 5 && t[0] == 'f' && t[1] == 'a' && t[2] == 'l' && t[3] == 's'
            && t[4] == 'e';
        assert(is_true == (t@ == true_text())) by {
            if t@ == true_text() {
                assert(t@[3] == 'e');
            }
            if is_true {
                assert(t@ =~= true_text());
            }
        }
        assert(is_false == (t@ == false_text())) by {
            if t@ == false_text() {
                assert(t@[4] == 'e');
            }
            if is_false {
                assert(t@ =~= false_text());
            }
        }
        if is_true {
            return Atom::Boolean(true);
        }
        if is_false {
            return Atom::Boolean(false);
        }
        match parse_i64(&t) {
            Some(v) => Atom::Int(v),
            None => {
                if float_syntax(&t) {
                    Atom::Float(src.value.clone())
                } else {
                    Atom::Symbol(src.value.clone())
                }
            },
        }
    }
}

impl Atom {
    /// Appends the atom's text to `s`.
    pub fn push_text(&self, s: &mut String)
        ensures
            final(s)@ == old(s)@ + atom_text(self@),
    {
        match self {
            Atom::Symbol(v) => push_str(s, v.as_str()),
            Atom::Keyword(v) => push_str(s, v.as_str()),
            Atom::Int(v) => push_int(s, *v),
            Atom::Float(v) => push_str(s, v.as_str()),
            Atom::String(v) => push_str(s, v.as_str()),
            Atom::Boolean(b) => {
                if *b {
                    let w = vec!['t', 'r', 'u', 'e'];
                    push_seq(s, &w);
                    assert(w@ =~= true_text());
                } else {
                    let w = vec!['f', 'a', 'l', 's', 'e'];
                    push_seq(s, &w);
                    assert(w@ =~= false_text());
                }
            },
            Atom::Reference(n) => {
                push_char(s, '%');
                push_nat(s, *n as u64);
                assert(final(s)@ =~= old(s)@ + atom_text(self@));
            },
        }
    }

    /// The atom as text: booleans as `true` or `false`, integers in base 10,
    /// floats, symbols, keywords and strings as written, and a reference to
    /// node `n` as `%n`.
    pub fn render(&self) -> (r: String)
        ensures
            r@ == atom_text(self@),
    {
        let mut s = String::new();
        self.push_text(&mut s);
        assert(s@ =~= atom_text(self@));
        s
    }
}

} // verus!
