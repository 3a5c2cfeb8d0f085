//! The canonical text form of a formula.
//!
//! The grammar has two alternatives, both anchored to the whole string:
//! a plain integer with an optional sign (`"-31"`), or a die form
//! `count 'd' faces` whose face count starts with a nonzero digit,
//! followed by an optional signed modifier (`"2d6+3"`).

use vstd::prelude::*;
use vstd::string::*;
use crate::dice::{Dice, DICE_COUNT_LIMIT, FACE_COUNT_LIMIT};
use crate::formula::{Formula, FIXED_LIMIT};

verus! {

/// The components a formula text denotes, as unbounded integers.
pub struct ParsedFormula {
    pub dice_count: int,
    pub face_count: int,
    pub fixed: int,
}

pub open spec fn is_digit_char(c: char) -> bool {
    48 <= c as int <= 57
}

/// The numeric value of one decimal digit character.
pub open spec fn digit_val(c: char) -> int {
    c as int - 48
}

/// The first index at or after `i` whose character is not a digit (or the
/// end of the text).
pub open spec fn digits_end(s: Seq<char>, i: int) -> int
    decreases s.len() - i,
{
    if 0 <= i < s.len() && is_digit_char(s[i]) {
        digits_end(s, i + 1)
    } else {
        i
    }
}

/// The value of the decimal digits `s[i..j]`, read most significant first.
pub open spec fn digits_val(s: Seq<char>, i: int, j: int) -> int
    decreases j - i,
{
    if i >= j {
        0
    } else {
        digits_val(s, i, j - 1) * 10 + digit_val(s[j - 1])
    }
}

/// What a text denotes under the formula grammar, or `None` when it is not
/// a formula. The two alternatives are a signed plain integer (die count 0,
/// one face) and the die form `count 'd' faces` with an optional signed
/// modifier.
pub open spec fn spec_parse(s: Seq<char>) -> Option<ParsedFormula> {
    if s.len() == 0 {
        None
    } else if s[0] == '+' || s[0] == '-' {
        if s.len() >= 2 && digits_end(s, 1) == s.len() {
            let v = digits_val(s, 1, s.len() as int);
            Some(ParsedFormula {
                dice_count: 0,
                face_count: 1,
                fixed: if s[0] == '-' { -v } else { v },
            })
        } else {
            None
        }
    } else {
        let e1 = digits_end(s, 0);
        if e1 == 0 {
            None
        } else if e1 == s.len() {
            Some(ParsedFormula { dice_count: 0, face_count: 1, fixed: digits_val(s, 0, e1) })
        } else if s[e1] == 'd' {
            parse_die_form(s, e1)
        } else {
            None
        }
    }
}

/// The die-form tail of the grammar: faces starting with a nonzero digit
/// after the `'d'` at index `e1`, then an optional signed modifier.
pub open spec fn parse_die_form(s: Seq<char>, e1: int) -> Option<ParsedFormula> {
    let f0 = e1 + 1;
    if f0 < s.len() && is_digit_char(s[f0]) && s[f0] != '0' {
        let e2 = digits_end(s, f0);
        let count = digits_val(s, 0, e1);
        let faces = digits_val(s, f0, e2);
        if e2 == s.len() {
            Some(ParsedFormula { dice_count: count, face_count: faces, fixed: 0 })
        } else if (s[e2] == '+' || s[e2] == '-') && e2 + 1 < s.len() && digits_end(s, e2 + 1)
            == s.len() {
            let v = digits_val(s, e2 + 1, s.len() as int);
            Some(ParsedFormula {
                dice_count: count,
                face_count: faces,
                fixed: if s[e2] == '-' { -v } else { v },
            })
        } else {
            None
        }
    } else {
        None
    }
}

/// Whether a text is accepted by the formula grammar.
pub open spec fn spec_is_formula(s: Seq<char>) -> bool {
    spec_parse(s) is Some
}

impl Formula {
    /// Whether `s` is a syntactically valid formula text. Validity is
    /// purely syntactic: a valid text may still denote values too large
    /// for [`Formula::from_text`].
    pub fn is_formula(s: &str) -> (r: bool)
        ensures
            r == spec_is_formula(s@),
    {
        let v = chars_vec(s);
        if v.len() == 0 {
            return false;
        }
        let c0 = v[0];
        if c0 == '+' || c0 == '-' {
            let e = scan_digits_end(&v, 1);
            v.len() >= 2 && e == v.len()
        } else {
            let e1 = scan_digits_end(&v, 0);
            if e1 == 0 {
                false
            } else if e1 == v.len() {
                true
            } else if v[e1] != 'd' {
                false
            } else {
                let f0 = e1 + 1;
                if f0 >= v.len() || !is_digit(v[f0]) || v[f0] == '0' {
                    false
                } else {
                    let e2 = scan_digits_end(&v, f0);
                    if e2 == v.len() {
                        true
                    } else if (v[e2] == '+' || v[e2] == '-') && e2 + 1 < v.len() {
                        scan_digits_end(&v, e2 + 1) == v.len()
                    } else {
                        false
                    }
                }
            }
        }
    }

    /// Parse a formula from its text. Returns `None` when the text is not
    /// accepted by the grammar, and also when it is accepted but denotes
    /// values outside the well-formedness limits.
    pub fn from_text(s: &str) -> (r: Option<Formula>)
        ensures
            match spec_parse(s@) {
                Some(p) => {
                    if p.dice_count <= DICE_COUNT_LIMIT && p.face_count <= FACE_COUNT_LIMIT
                        && -FIXED_LIMIT <= p.fixed <= FIXED_LIMIT {
                        match r {
                            Some(f) => f.wf() && f.dice.dice_count == p.dice_count
                                && f.dice.face_count == p.face_count && f.fixed == p.fixed,
                            None => false,
                        }
                    } else {
                        r is None
                    }
                },
                None => r is None,
            },
    {
        let v = chars_vec(s);
        if v.len() == 0 {
            return None;
        }
        let c0 = v[0];
        if c0 == '+' || c0 == '-' {
            let e = scan_digits_end(&v, 1);
            if v.len() >= 2 && e == v.len() {
                match scan_digits_val(&v, 1, e) {
                    Some(x) => {
                        if x <= FIXED_LIMIT as i64 {
                            let k = if c0 == '-' { -(x as i32) } else { x as i32 };
                            Some(Formula::fixed_only(k))
                        } else {
                            None
                        }
                    },
                    None => None,
                }
            } else {
                None
            }
        } else {
            let e1 = scan_digits_end(&v, 0);
            if e1 == 0 {
                None
            } else if e1 == v.len() {
                match scan_digits_val(&v, 0, e1) {
                    Some(x) => {
                        if x <= FIXED_LIMIT as i64 {
                            Some(Formula::fixed_only(x as i32))
                        } else {
                            None
                        }
                    },
                    None => None,
                }
            } else if v[e1] != 'd' {
                None
            } else {
                Formula::from_text_die_form(&v, e1)
            }
        }
    }

    /// The die-form half of [`Formula::from_text`], after the `'d'` at
    /// index `e1` has been found.
    fn from_text_die_form(v: &Vec<char>, e1: usize) -> (r: Option<Formula>)
        requires
            0 < e1 < v@.len(),
            digits_end(v@, 0) == e1,
            v@[e1 as int] == 'd',
        ensures
            match parse_die_form(v@, e1 as int) {
                Some(p) => {
                    if p.dice_count <= DICE_COUNT_LIMIT && p.face_count <= FACE_COUNT_LIMIT
                        && -FIXED_LIMIT <= p.fixed <= FIXED_LIMIT {
                        match r {
                            Some(f) => f.wf() && f.dice.dice_count == p.dice_count
                                && f.dice.face_count == p.face_count && f.fixed == p.fixed,
                            None => false,
                        }
                    } else {
                        r is None
                    }
                },
                None => r is None,
            },
    {
        proof {
            lemma_digits_end_bounds(v@, 0);
        }
        let n = v.len();
        let f0 = e1 + 1;
        if f0 >= v.len() || !is_digit(v[f0]) || v[f0] == '0' {
            return None;
        }
        let e2 = scan_digits_end(&v, f0);
        let count = match scan_digits_val(v, 0, e1) {
            Some(x) => x,
            None => return None,
        };
        let faces = match scan_digits_val(v, f0, e2) {
            Some(x) => x,
            None => return None,
        };
        if count > DICE_COUNT_LIMIT as i64 || faces > FACE_COUNT_LIMIT as i64 {
            return None;
        }
        proof {
            lemma_digits_val_nonneg(v@, f0 as int, e2 as int);
            lemma_digits_val_grows(v@, f0 as int, f0 as int + 1, e2 as int);
            assert(digits_val(v@, f0 as int, f0 as int) == 0);
            assert(digits_val(v@, f0 as int, f0 as int + 1) == digit_val(v@[f0 as int]));
            assert('0' as int == 48);
        }
        let dice = Dice::new(count as i32, faces as i32);
        if e2 == v.len() {
            Some(Formula::new(dice, 0))
        } else if (v[e2] == '+' || v[e2] == '-') && e2 + 1 < v.len() && scan_digits_end(
            &v,
            e2 + 1,
        ) == v.len() {
            match scan_digits_val(v, e2 + 1, v.len()) {
                Some(x) => {
                    if x <= FIXED_LIMIT as i64 {
                        let k = if v[e2] == '-' { -(x as i32) } else { x as i32 };
                        Some(Formula::new(dice, k))
                    } else {
                        None
                    }
                },
                None => None,
            }
        } else {
            None
        }
    }
}

/// Whether a character is a decimal digit, as executable code.
fn is_digit(c: char) -> (b: bool)
    ensures
        b == is_digit_char(c),
{
    let u = c as u32;
    48 <= u && u <= 57
}

/// The characters of `s` as a vector, in order.
fn chars_vec(s: &str) -> (r: Vec<char>)
    ensures
        r@ == s@,
{
    let n = s.unicode_len();
    let mut v: Vec<char> = Vec::new();
    let mut i: usize = 0;
    while i < n
        invariant
            i <= n,
            n == s@.len(),
            v@ == s@.take(i as int),
        decreases n - i,
    {
        let c = s.get_char(i);
        v.push(c);
        proof {
            assert(v@ =~= s@.take(i + 1));
        }
        i = i + 1;
    }
    proof {
        assert(v@ =~= s@);
    }
    v
}

/// `digits_end` stays between its start and the end of the text, scans
/// digits only, and stops at the first non-digit.
pub proof fn lemma_digits_end_bounds(s: Seq<char>, i: int)
    requires
        0 <= i <= s.len(),
    ensures
        i <= digits_end(s, i) <= s.len(),
        forall|j: int| i <= j < digits_end(s, i) ==> is_digit_char(#[trigger] s[j]),
        digits_end(s, i) < s.len() ==> !is_digit_char(s[digits_end(s, i)]),
    decreases s.len() - i,
{
    if i < s.len() && is_digit_char(s[i]) {
        lemma_digits_end_bounds(s, i + 1);
    }
}

/// A run of digits from `i` up to `e`, hitting a non-digit or the end at
/// `e`, is exactly what `digits_end` finds.
pub proof fn lemma_digits_end_value(s: Seq<char>, i: int, e: int)
    requires
        0 <= i <= e <= s.len(),
        forall|j: int| i <= j < e ==> is_digit_char(#[trigger] s[j]),
        e < s.len() ==> !is_digit_char(s[e]),
    ensures
        digits_end(s, i) == e,
    decreases e - i,
{
    if i < e {
        lemma_digits_end_value(s, i + 1, e);
    }
}

/// Digit strings denote non-negative values.
pub proof fn lemma_digits_val_nonneg(s: Seq<char>, i: int, j: int)
    requires
        0 <= i,
        i <= j,
        j <= s.len(),
        forall|k: int| i <= k < j ==> is_digit_char(#[trigger] s[k]),
    ensures
        0 <= digits_val(s, i, j),
        i < j ==> digits_val(s, i, j - 1) * 10 <= digits_val(s, i, j),
    decreases j - i,
{
    if i < j {
        lemma_digits_val_nonneg(s, i, j - 1);
        assert(digits_val(s, i, j - 1) * 10 >= 0) by (nonlinear_arith)
            requires
                digits_val(s, i, j - 1) >= 0,
        ;
    }
}

/// The value of a digit string depends only on the characters it covers.
pub proof fn lemma_digits_val_congruence(s: Seq<char>, i: int, j: int, t: Seq<char>, a: int, b: int)
    requires
        0 <= i,
        j <= s.len(),
        0 <= a,
        b <= t.len(),
        j - i == b - a,
        forall|k: int| i <= k < j ==> #[trigger] s[k] == t[k + a - i],
    ensures
        digits_val(s, i, j) == digits_val(t, a, b),
    decreases j - i,
{
    if i < j {
        lemma_digits_val_congruence(s, i, j - 1, t, a, b - 1);
    }
}

/// The exec scan that mirrors `digits_end`.
fn scan_digits_end(v: &Vec<char>, from: usize) -> (r: usize)
    requires
        from <= v@.len(),
    ensures
        r == digits_end(v@, from as int),
        from <= r <= v@.len(),
        forall|j: int| from <= j < r ==> is_digit_char(#[trigger] v@[j]),
        r < v@.len() ==> !is_digit_char(v@[r as int]),
{
    let mut i = from;
    while i < v.len() && is_digit(v[i])
        invariant
            from <= i <= v@.len(),
            digits_end(v@, from as int) == digits_end(v@, i as int),
            forall|j: int| from <= j < i ==> is_digit_char(#[trigger] v@[j]),
        decreases v@.len() - i,
    {
        i = i + 1;
    }
    i
}

/// The exec accumulation that mirrors `digits_val`; `None` means the value
/// exceeds every well-formedness limit.
fn scan_digits_val(v: &Vec<char>, from: usize, to: usize) -> (r: Option<i64>)
    requires
        from <= to <= v@.len(),
        forall|j: int| from <= j < to ==> is_digit_char(#[trigger] v@[j]),
    ensures
        match r {
            Some(x) => x == digits_val(v@, from as int, to as int) && 0 <= x
                <= 2_000_000_000i64,
            None => digits_val(v@, from as int, to as int) > 2_000_000_000,
        },
{
    let mut acc: i64 = 0;
    let mut i = from;
    while i < to
        invariant
            from <= i <= to <= v@.len(),
            forall|j: int| from <= j < to ==> is_digit_char(#[trigger] v@[j]),
            acc == digits_val(v@, from as int, i as int),
            0 <= acc <= 2_000_000_000i64,
        decreases to - i,
    {
        let c = v[i];
        let d = (c as u32) - 48;
        acc = acc * 10 + (d as i64);
        i = i + 1;
        if acc > 2_000_000_000 {
            proof {
                lemma_digits_val_grows(v@, from as int, i as int, to as int);
            }
            return None;
        }
    }
    Some(acc)
}

/// Extending a digit string to the right never shrinks its value.
pub proof fn lemma_digits_val_grows(s: Seq<char>, from: int, i: int, to: int)
    requires
        0 <= from,
        from <= i <= to,
        to <= s.len(),
        forall|k: int| from <= k < to ==> is_digit_char(#[trigger] s[k]),
    ensures
        digits_val(s, from, i) <= digits_val(s, from, to),
    decreases to - i,
{
    if i < to {
        lemma_digits_val_nonneg(s, from, to);
        lemma_digits_val_grows(s, from, i, to - 1);
        assert(digits_val(s, from, to - 1) <= digits_val(s, from, to - 1) * 10) by (
        nonlinear_arith)
            requires
                digits_val(s, from, to - 1) >= 0,
        ;
    }
}

} // verus!

// -- canonical formatting, and the parse/format round trip ----------------

verus! {

/// The decimal digit character for one value in `[0, 9]`.
pub open spec fn digit_char_of(d: int) -> char {
    if d == 0 {
        '0'
    } else if d == 1 {
        '1'
    } else if d == 2 {
        '2'
    } else if d == 3 {
        '3'
    } else if d == 4 {
        '4'
    } else if d == 5 {
        '5'
    } else if d == 6 {
        '6'
    } else if d == 7 {
        '7'
    } else if d == 8 {
        '8'
    } else {
        '9'
    }
}

/// The decimal digits of a non-negative value, most significant first.
pub open spec fn spec_dec_digits(n: int) -> Seq<char>
    decreases n,
{
    if n < 10 {
        seq![digit_char_of(n)]
    } else {
        spec_dec_digits(n / 10) + seq![digit_char_of(n % 10)]
    }
}

/// The canonical text of a formula with the given components: the plain
/// signed integer when there are no dice and one face, and the die form
/// `count 'd' faces` with a signed modifier tail otherwise.
pub open spec fn spec_format(dice_count: int, face_count: int, fixed: int) -> Seq<char> {
    if dice_count == 0 && face_count == 1 {
        if fixed < 0 {
            seq!['-'] + spec_dec_digits(-fixed)
        } else {
            spec_dec_digits(fixed)
        }
    } else {
        spec_dec_digits(dice_count) + seq!['d'] + spec_dec_digits(face_count) + (if fixed > 0 {
            seq!['+'] + spec_dec_digits(fixed)
        } else if fixed < 0 {
            seq!['-'] + spec_dec_digits(-fixed)
        } else {
            Seq::<char>::empty()
        })
    }
}

/// The decimal digits of a value are digit characters, start with a
/// nonzero digit unless the value is below ten, and denote the value.
pub proof fn lemma_dec_digits(n: int)
    requires
        0 <= n,
    ensures
        spec_dec_digits(n).len() >= 1,
        forall|j: int| 0 <= j < spec_dec_digits(n).len() ==> is_digit_char(
            #[trigger] spec_dec_digits(n)[j],
        ),
        digits_val(spec_dec_digits(n), 0, spec_dec_digits(n).len() as int) == n,
        n >= 1 ==> spec_dec_digits(n)[0] != '0',
    decreases n,
{
    if n < 10 {
        let s = spec_dec_digits(n);
        assert(s =~= seq![digit_char_of(n)]);
        assert(digits_val(s, 0, 0) == 0);
        assert(digits_val(s, 0, 1) == digit_val(s[0]));
    } else {
        lemma_dec_digits(n / 10);
        let p = spec_dec_digits(n / 10);
        let s = spec_dec_digits(n);
        let m = p.len() as int;
        assert(s == p + seq![digit_char_of(n % 10)]);
        assert(s.len() == m + 1);
        assert(s[m] == digit_char_of(n % 10));
        assert(forall|j: int| 0 <= j < m ==> #[trigger] s[j] == p[j]);
        lemma_digits_val_congruence(s, 0, m, p, 0, m);
        assert(digits_val(s, 0, m + 1) == digits_val(s, 0, m) * 10 + digit_val(s[m]));
        assert(digit_val(digit_char_of(n % 10)) == n % 10);
        assert((n / 10) * 10 + n % 10 == n) by (nonlinear_arith)
            requires
                n >= 0,
        ;
    }
}

/// One digit as a string slice.
fn digit_str(d: u32) -> (r: &'static str)
    requires
        d <= 9,
    ensures
        r@ =~= seq![digit_char_of(d as int)],
{
    proof {
        reveal_strlit("0");
        reveal_strlit("1");
        reveal_strlit("2");
        reveal_strlit("3");
        reveal_strlit("4");
        reveal_strlit("5");
        reveal_strlit("6");
        reveal_strlit("7");
        reveal_strlit("8");
        reveal_strlit("9");
    }
    match d {
        0 => "0",
        1 => "1",
        2 => "2",
        3 => "3",
        4 => "4",
        5 => "5",
        6 => "6",
        7 => "7",
        8 => "8",
        _ => "9",
    }
}

/// Append the decimal digits of `n` to `out`.
pub fn push_dec_digits(out: &mut String, n: i64)
    requires
        0 <= n,
    ensures
        final(out)@ == old(out)@ + spec_dec_digits(n as int),
    decreases n,
{
    if n < 10 {
        let d = digit_str(n as u32);
        out.append(d);
        proof {
            assert(old(out)@ + d@ =~= old(out)@ + spec_dec_digits(n as int));
        }
    } else {
        push_dec_digits(out, n / 10);
        let d = digit_str((n % 10) as u32);
        out.append(d);
        proof {
            assert((old(out)@ + spec_dec_digits(n as int / 10)) + d@ =~= old(out)@
                + spec_dec_digits(n as int));
        }
    }
}

impl Formula {
    /// The canonical text of this formula; parsing it back yields the same
    /// die count, face count and fixed modifier.
    pub fn to_text(&self) -> (r: String)
        requires
            self.wf(),
        ensures
            r@ == spec_format(
                self.dice.dice_count as int,
                self.dice.face_count as int,
                self.fixed as int,
            ),
    {
        proof {
            reveal_strlit("d");
            reveal_strlit("+");
            reveal_strlit("-");
            reveal_strlit("");
        }
        let mut out = String::new();
        if self.dice.dice_count == 0 && self.dice.face_count == 1 {
            if self.fixed < 0 {
                out.append("-");
                push_dec_digits(&mut out, -(self.fixed as i64));
            } else {
                push_dec_digits(&mut out, self.fixed as i64);
            }
            proof {
                assert(out@ =~= spec_format(
                    self.dice.dice_count as int,
                    self.dice.face_count as int,
                    self.fixed as int,
                ));
            }
        } else {
            push_dec_digits(&mut out, self.dice.dice_count as i64);
            out.append("d");
            push_dec_digits(&mut out, self.dice.face_count as i64);
            if self.fixed > 0 {
                out.append("+");
                push_dec_digits(&mut out, self.fixed as i64);
            } else if self.fixed < 0 {
                out.append("-");
                push_dec_digits(&mut out, -(self.fixed as i64));
            }
            proof {
                assert(out@ =~= spec_format(
                    self.dice.dice_count as int,
                    self.dice.face_count as int,
                    self.fixed as int,
                ));
            }
        }
        out
    }
}

} // verus!

verus! {

/// Every accepted text denotes a non-negative die count and at least one
/// face.
pub proof fn lemma_parse_components(s: Seq<char>)
    requires
        spec_is_formula(s),
    ensures
        ({
            let p = spec_parse(s)->Some_0;
            0 <= p.dice_count && 1 <= p.face_count
        }),
{
    if s[0] == '+' || s[0] == '-' {
    } else {
        let e1 = digits_end(s, 0);
        lemma_digits_end_bounds(s, 0);
        if e1 == s.len() {
        } else if s[e1] == 'd' {
            let f0 = e1 + 1;
            if f0 < s.len() && is_digit_char(s[f0]) && s[f0] != '0' {
                let e2 = digits_end(s, f0);
                lemma_digits_end_bounds(s, f0);
                lemma_digits_val_nonneg(s, 0, e1);
                lemma_digits_val_nonneg(s, f0, e2);
                lemma_digits_val_grows(s, f0, f0 + 1, e2);
                assert(digits_val(s, f0, f0) == 0);
                assert(digits_val(s, f0, f0 + 1) == digit_val(s[f0]));
                assert('0' as int == 48);
            }
        }
    }
}

/// Formatting components with a non-negative die count and a positive face
/// count yields a text that parses back to exactly those components.
pub proof fn lemma_format_parse(c: int, f: int, k: int)
    requires
        0 <= c,
        1 <= f,
    ensures
        spec_parse(spec_format(c, f, k)) == Some(
            ParsedFormula { dice_count: c, face_count: f, fixed: k },
        ),
{
    let s = spec_format(c, f, k);
    if c == 0 && f == 1 {
        if k >= 0 {
            lemma_dec_digits(k);
            let d = spec_dec_digits(k);
            assert(s == d);
            assert(is_digit_char(s[0]));
            assert(s[0] != '+' && s[0] != '-');
            lemma_digits_end_value(s, 0, s.len() as int);
        } else {
            lemma_dec_digits(-k);
            let d = spec_dec_digits(-k);
            assert(s == seq!['-'] + d);
            assert(s[0] == '-');
            assert(s.len() == 1 + d.len());
            assert(forall|j: int| 1 <= j < s.len() ==> #[trigger] s[j] == d[j - 1]);
            lemma_digits_end_value(s, 1, s.len() as int);
            lemma_digits_val_congruence(s, 1, s.len() as int, d, 0, d.len() as int);
        }
    } else {
        let dc = spec_dec_digits(c);
        let df = spec_dec_digits(f);
        let tail = if k > 0 {
            seq!['+'] + spec_dec_digits(k)
        } else if k < 0 {
            seq!['-'] + spec_dec_digits(-k)
        } else {
            Seq::<char>::empty()
        };
        lemma_dec_digits(c);
        lemma_dec_digits(f);
        if k > 0 {
            lemma_dec_digits(k);
        } else if k < 0 {
            lemma_dec_digits(-k);
        }
        let m = dc.len() as int;
        let fl = df.len() as int;
        assert(s == dc + seq!['d'] + df + tail);
        assert(s.len() == m + 1 + fl + tail.len());
        assert(forall|j: int| 0 <= j < m ==> #[trigger] s[j] == dc[j]);
        assert(s[m] == 'd');
        assert(forall|j: int| m + 1 <= j < m + 1 + fl ==> #[trigger] s[j] == df[j - (m + 1)]);
        assert(forall|j: int| m + 1 + fl <= j < s.len() ==> #[trigger] s[j] == tail[j - (m + 1
            + fl)]);

        // the count digits end exactly at the 'd'
        assert(!is_digit_char('d'));
        assert(is_digit_char(s[0]));
        assert(s[0] != '+' && s[0] != '-');
        lemma_digits_end_value(s, 0, m);
        assert(digits_end(s, 0) == m);
        assert(m >= 1);

        // the face digits end at the tail (or at the end of the text)
        let f0 = m + 1;
        let e2 = m + 1 + fl;
        assert(is_digit_char(s[f0]));
        assert(s[f0] == df[0]);
        assert(s[f0] != '0');
        if k != 0 {
            assert(tail[0] == '+' || tail[0] == '-');
            assert(s[e2] == tail[0]);
            assert(!is_digit_char(s[e2]));
        }
        lemma_digits_end_value(s, f0, e2);

        // the three digit regions denote c, f and |k|
        lemma_digits_val_congruence(s, 0, m, dc, 0, m);
        lemma_digits_val_congruence(s, f0, e2, df, 0, fl);
        assert(digits_val(s, 0, m) == c);
        assert(digits_val(s, f0, e2) == f);
        if k > 0 {
            let dk = spec_dec_digits(k);
            assert(forall|j: int| e2 + 1 <= j < s.len() ==> #[trigger] s[j] == dk[j - (e2 + 1)]);
            lemma_digits_end_value(s, e2 + 1, s.len() as int);
            lemma_digits_val_congruence(s, e2 + 1, s.len() as int, dk, 0, dk.len() as int);
            assert(s[e2] == '+');
            assert(parse_die_form(s, m) == Some(
                ParsedFormula { dice_count: c, face_count: f, fixed: k },
            ));
        } else if k < 0 {
            let dk = spec_dec_digits(-k);
            assert(forall|j: int| e2 + 1 <= j < s.len() ==> #[trigger] s[j] == dk[j - (e2 + 1)]);
            lemma_digits_end_value(s, e2 + 1, s.len() as int);
            lemma_digits_val_congruence(s, e2 + 1, s.len() as int, dk, 0, dk.len() as int);
            assert(s[e2] == '-');
            assert(parse_die_form(s, m) == Some(
                ParsedFormula { dice_count: c, face_count: f, fixed: k },
            ));
        } else {
            assert(e2 == s.len());
            assert(parse_die_form(s, m) == Some(
                ParsedFormula { dice_count: c, face_count: f, fixed: k },
            ));
        }
    }
}

/// The formula round trip: for every text the grammar accepts, parsing and
/// re-serializing the components gives a text that parses to the same die
/// count, face count and fixed modifier.
pub proof fn lemma_formula_round_trip(s: Seq<char>)
    requires
        spec_is_formula(s),
    ensures
        ({
            let p = spec_parse(s)->Some_0;
            spec_parse(spec_format(p.dice_count, p.face_count, p.fixed)) == spec_parse(s)
        }),
{
    let p = spec_parse(s)->Some_0;
    lemma_parse_components(s);
    lemma_format_parse(p.dice_count, p.face_count, p.fixed);
}

} // verus!
