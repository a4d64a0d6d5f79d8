//! Exact decimal numbers, as written in numeral text.
use vstd::prelude::*;
use vstd::string::StringExecFns;

verus! {

/// Whether `c` is one of the ASCII digits `0` to `9`.
pub open spec fn is_digit(c: char) -> bool {
    '0' <= c && c <= '9'
}

/// The value of the digit character `c`.
pub open spec fn digit_of(c: char) -> u8 {
    (c as u32 - '0' as u32) as u8
}

/// The value of a run of decimal digits, most significant first.
pub open spec fn digits_value(ds: Seq<u8>) -> nat
    decreases ds.len(),
{
    if ds.len() == 0 {
        0
    } else {
        digits_value(ds.drop_last()) * 10 + ds.last() as nat
    }
}

/// The fraction `m / 10^s` with trailing decimal zeros cancelled: the scale is
/// the least one that expresses the same value.
pub open spec fn reduce(m: int, s: nat) -> (int, nat)
    decreases s,
{
    if s > 0 && m % 10 == 0 {
        reduce(m / 10, (s - 1) as nat)
    } else {
        (m, s)
    }
}

/// The digits of numeral text, in order, as values; other characters are skipped.
pub open spec fn numeral_digits(t: Seq<char>) -> Seq<u8>
    decreases t.len(),
{
    if t.len() == 0 {
        seq![]
    } else if is_digit(t.last()) {
        numeral_digits(t.drop_last()).push(digit_of(t.last()))
    } else {
        numeral_digits(t.drop_last())
    }
}

/// The number of decimal points in `t`.
pub open spec fn count_points(t: Seq<char>) -> nat
    decreases t.len(),
{
    if t.len() == 0 {
        0
    } else if t.last() == '.' {
        count_points(t.drop_last()) + 1
    } else {
        count_points(t.drop_last())
    }
}

/// The number of digits after the decimal point of `t` (none without a point).
pub open spec fn fraction_len(t: Seq<char>) -> nat
    decreases t.len(),
{
    if t.len() == 0 {
        0
    } else if t.last() == '.' {
        0
    } else if count_points(t.drop_last()) > 0 && is_digit(t.last()) {
        fraction_len(t.drop_last()) + 1
    } else {
        fraction_len(t.drop_last())
    }
}

/// Whether numeral text starts with a minus sign.
pub open spec fn has_sign(t: Seq<char>) -> bool {
    t.len() > 0 && t[0] == '-'
}

/// Numeral text without its leading minus sign, if any.
pub open spec fn unsigned_part(t: Seq<char>) -> Seq<char> {
    if has_sign(t) {
        t.drop_first()
    } else {
        t
    }
}

/// Numeral text: an optional leading minus sign, then digits with at most one
/// decimal point among them, at least one digit in all. Either side of the
/// point may be empty (`5.`, `.5`), as in the usual decimal float syntax.
pub open spec fn is_numeral(t: Seq<char>) -> bool {
    let u = unsigned_part(t);
    &&& forall|i: int| 0 <= i < u.len() ==> is_digit(#[trigger] u[i]) || u[i] == '.'
    &&& count_points(u) <= 1
    &&& numeral_digits(u).len() > 0
}

/// The exact value of numeral text, as a signed mantissa and a decimal scale:
/// the number is `mantissa / 10^scale`.
pub open spec fn numeral_value(t: Seq<char>) -> (int, nat) {
    let m = digits_value(numeral_digits(unsigned_part(t))) as int;
    (if has_sign(t) { -m } else { m }, fraction_len(unsigned_part(t)))
}

/// An exact decimal number `±digits / 10^scale`.
///
/// In canonical form (`wf`) each value has exactly one representation: no
/// leading zero digit, no trailing zero after the decimal point, and zero is
/// written with no digits and no sign.
#[derive(Debug, PartialEq, Eq)]
pub struct Decimal {
    pub negative: bool,
    pub digits: Vec<u8>,
    pub scale: usize,
}

impl View for Decimal {
    type V = (int, nat);

    /// The signed mantissa and the scale.
    open spec fn view(&self) -> (int, nat) {
        let m = digits_value(self.digits@) as int;
        (if self.negative { -m } else { m }, self.scale as nat)
    }
}

impl Decimal {
    /// Canonical form.
    pub open spec fn wf(&self) -> bool {
        &&& forall|i: int| 0 <= i < self.digits@.len() ==> #[trigger] self.digits@[i] < 10
        &&& self.digits@.len() > 0 ==> self.digits@[0] != 0
        &&& self.scale > 0 ==> self.digits@.len() > 0 && self.digits@.last() != 0
        &&& self.digits@.len() == 0 ==> !self.negative
    }
}

/// Negating the mantissa commutes with cancelling trailing zeros.
proof fn lemma_reduce_negate(m: int, s: nat)
    ensures
        reduce(-m, s) == (-reduce(m, s).0, reduce(m, s).1),
    decreases s,
{
    if s > 0 && m % 10 == 0 {
        assert((-m) % 10 == 0 && (-m) / 10 == -(m / 10));
        lemma_reduce_negate(m / 10, (s - 1) as nat);
    } else if s > 0 {
        assert((-m) % 10 != 0);
    }
}

/// The last digit of a run is its value modulo ten.
proof fn lemma_last_digit(ds: Seq<u8>)
    requires
        ds.len() > 0,
        ds.last() < 10,
    ensures
        digits_value(ds) % 10 == ds.last() as int,
        digits_value(ds) / 10 == digits_value(ds.drop_last()),
{
    let h = digits_value(ds.drop_last());
    assert(digits_value(ds) == h * 10 + ds.last() as nat);
}

/// A run of zeros has value zero.
proof fn lemma_zeros(p: Seq<u8>)
    requires
        forall|i: int| 0 <= i < p.len() ==> #[trigger] p[i] == 0,
    ensures
        digits_value(p) == 0,
    decreases p.len(),
{
    if p.len() > 0 {
        lemma_zeros(p.drop_last());
    }
}

/// Leading zeros do not change the value of a run of digits.
proof fn lemma_leading_zeros(p: Seq<u8>, q: Seq<u8>)
    requires
        forall|i: int| 0 <= i < p.len() ==> #[trigger] p[i] == 0,
    ensures
        digits_value(p + q) == digits_value(q),
    decreases q.len(),
{
    if q.len() == 0 {
        assert(p + q =~= p);
        lemma_zeros(p);
    } else {
        assert((p + q).drop_last() =~= p + q.drop_last());
        lemma_leading_zeros(p, q.drop_last());
    }
}

/// The character of the digit `d`.
pub open spec fn digit_char(d: u8) -> char {
    ((d + 48) as u8) as char
}

proof fn lemma_digit_char(d: u8)
    requires
        d < 10,
    ensures
        is_digit(digit_char(d)),
        digit_of(digit_char(d)) == d,
        digit_char(d) != '.',
        digit_char(d) != '-',
{
}

/// The digit characters of a run of digits.
pub open spec fn digit_chars(ds: Seq<u8>) -> Seq<char> {
    ds.map_values(|d: u8| digit_char(d))
}

/// The digits written out for a number: at least one before the point, and
/// `scale` after it, with leading zeros added where the digits are too few.
pub open spec fn padded_digits(ds: Seq<u8>, scale: nat) -> Seq<u8> {
    if scale >= ds.len() {
        Seq::new((scale - ds.len() + 1) as nat, |i: int| 0u8) + ds
    } else {
        ds
    }
}

/// Plain decimal text for `±ds / 10^scale`: an optional minus sign, the
/// integer digits, then a point and `scale` fraction digits if `scale > 0`.
pub open spec fn decimal_text(negative: bool, ds: Seq<u8>, scale: nat) -> Seq<char> {
    let p = padded_digits(ds, scale);
    let sign = if negative {
        seq!['-']
    } else {
        Seq::<char>::empty()
    };
    let fraction = if scale > 0 {
        seq!['.'] + digit_chars(p.skip(p.len() - scale))
    } else {
        Seq::<char>::empty()
    };
    sign + digit_chars(p.take(p.len() - scale)) + fraction
}

proof fn lemma_numeral_digits_concat(x: Seq<char>, y: Seq<char>)
    ensures
        numeral_digits(x + y) == numeral_digits(x) + numeral_digits(y),
        count_points(x + y) == count_points(x) + count_points(y),
    decreases y.len(),
{
    if y.len() == 0 {
        assert(x + y =~= x);
        assert(numeral_digits(x) + numeral_digits(y) =~= numeral_digits(x));
    } else {
        assert((x + y).drop_last() =~= x + y.drop_last());
        lemma_numeral_digits_concat(x, y.drop_last());
        if is_digit(y.last()) {
            assert(numeral_digits(x) + numeral_digits(y) =~= (numeral_digits(x) + numeral_digits(
                y.drop_last(),
            )).push(digit_of(y.last())));
        }
    }
}

proof fn lemma_digit_chars(ds: Seq<u8>)
    requires
        forall|i: int| 0 <= i < ds.len() ==> #[trigger] ds[i] < 10,
    ensures
        numeral_digits(digit_chars(ds)) == ds,
        count_points(digit_chars(ds)) == 0,
        fraction_len(digit_chars(ds)) == 0,
        forall|i: int| 0 <= i < ds.len() ==> is_digit(#[trigger] digit_chars(ds)[i]),
    decreases ds.len(),
{
    assert forall|i: int| 0 <= i < ds.len() implies is_digit(#[trigger] digit_chars(ds)[i]) by {
        lemma_digit_char(ds[i]);
    }
    if ds.len() > 0 {
        assert(digit_chars(ds).drop_last() =~= digit_chars(ds.drop_last()));
        lemma_digit_chars(ds.drop_last());
        lemma_digit_char(ds.last());
        assert(ds.drop_last().push(ds.last()) =~= ds);
    }
}

proof fn lemma_point()
    ensures
        numeral_digits(seq!['.']) == Seq::<u8>::empty(),
        count_points(seq!['.']) == 1,
{
    let t = seq!['.'];
    assert(t.len() == 1 && t.last() == '.');
    assert(t.drop_last() =~= Seq::<char>::empty());
    assert(count_points(Seq::<char>::empty()) == 0);
    assert(numeral_digits(Seq::<char>::empty()) == Seq::<u8>::empty());
    assert(!is_digit('.'));
}

proof fn lemma_fraction_after_point(x: Seq<char>, b: Seq<u8>)
    requires
        forall|i: int| 0 <= i < b.len() ==> #[trigger] b[i] < 10,
    ensures
        fraction_len(x + seq!['.'] + digit_chars(b)) == b.len(),
    decreases b.len(),
{
    let t = x + seq!['.'] + digit_chars(b);
    if b.len() == 0 {
        assert(t =~= x + seq!['.']);
    } else {
        assert(t.drop_last() =~= x + seq!['.'] + digit_chars(b.drop_last()));
        lemma_fraction_after_point(x, b.drop_last());
        lemma_digit_char(b.last());
        lemma_numeral_digits_concat(x, seq!['.']);
        lemma_numeral_digits_concat(x + seq!['.'], digit_chars(b.drop_last()));
        lemma_point();
    }
}

/// The text of a canonical number is a numeral whose value is that number.
#[verifier::rlimit(40)]
pub proof fn lemma_decimal_text_value(d: Decimal)
    requires
        d.wf(),
    ensures
        is_numeral(decimal_text(d.negative, d.digits@, d.scale as nat)),
        reduce(
            numeral_value(decimal_text(d.negative, d.digits@, d.scale as nat)).0,
            numeral_value(decimal_text(d.negative, d.digits@, d.scale as nat)).1,
        ) == d@,
{
    let ds = d.digits@;
    let sc = d.scale as nat;
    let t = decimal_text(d.negative, ds, sc);
    let p = padded_digits(ds, sc);
    let zeros = Seq::new((sc - ds.len() + 1) as nat, |i: int| 0u8);
    assert forall|i: int| 0 <= i < p.len() implies #[trigger] p[i] < 10 by {
        if sc >= ds.len() && i >= zeros.len() {
            assert(p[i] == ds[i - zeros.len()]);
        }
    }
    let ip = p.take(p.len() - sc);
    let fp = p.skip(p.len() - sc);
    assert(ip + fp =~= p);
    lemma_digit_chars(ip);
    lemma_digit_chars(fp);
    let u = if sc > 0 {
        digit_chars(ip) + seq!['.'] + digit_chars(fp)
    } else {
        digit_chars(ip)
    };
    assert(ip.len() > 0);
    assert(digit_chars(ip)[0] != '-') by {
        lemma_digit_char(ip[0]);
    }
    if d.negative {
        assert(t =~= seq!['-'] + u);
        assert(t.drop_first() =~= u);
    } else {
        assert(t =~= u);
    }
    assert(unsigned_part(t) == u);
    lemma_point();
    if sc > 0 {
        lemma_numeral_digits_concat(digit_chars(ip), seq!['.']);
        lemma_numeral_digits_concat(digit_chars(ip) + seq!['.'], digit_chars(fp));
        lemma_fraction_after_point(digit_chars(ip), fp);
        assert(numeral_digits(u) =~= p);
        assert forall|i: int| 0 <= i < u.len() implies is_digit(#[trigger] u[i]) || u[i] == '.' by {
            if i > ip.len() {
                assert(u[i] == digit_chars(fp)[i - ip.len() - 1]);
            } else if i < ip.len() {
                assert(u[i] == digit_chars(ip)[i]);
            }
        }
    } else {
        assert(fp.len() == 0);
        assert(ip =~= p);
    }
    if sc >= ds.len() {
        lemma_leading_zeros(zeros, ds);
    }
    if sc > 0 {
        lemma_last_digit(ds);
        let m = digits_value(ds) as int;
        assert(m % 10 != 0);
        assert((-m) % 10 != 0);
    }
}

/// The text of the digit `d`.
fn digit_str(d: u8) -> (r: &'static str)
    requires
        d < 10,
    ensures
        r@ == seq![digit_char(d)],
{
    proof {
        reveal_strlit("0");
        reveal_strlit("1");
        reveal_strlit("2");
        reveal_strlit("3");
        reveal_strlit("4");
        reveal_strlit("5");
        reveal_strlit("6");
        reveal_strlit("7");
        reveal_strlit("8");
        reveal_strlit("9");
    }
    match d {
        0 => "0",
        1 => "1",
        2 => "2",
        3 => "3",
        4 => "4",
        5 => "5",
        6 => "6",
        7 => "7",
        8 => "8",
        _ => "9",
    }
}

impl Decimal {
    /// Brings `±digits / 10^scale` to canonical form.
    fn canonical(negative: bool, digits: Vec<u8>, scale: usize) -> (d: Decimal)
        requires
            forall|i: int| 0 <= i < digits@.len() ==> #[trigger] digits@[i] < 10,
            scale <= digits@.len(),
        ensures
            d.wf(),
            d@ == reduce(
                if negative {
                    -digits_value(digits@)
                } else {
                    digits_value(digits@) as int
                },
                scale as nat,
            ),
    {
        let ghost full = digits@;
        let ghost full_scale = scale as nat;
        let mut digits = digits;
        let mut scale = scale;
        while scale > 0 && digits[digits.len() - 1] == 0
            invariant
                scale <= digits@.len(),
                forall|i: int| 0 <= i < digits@.len() ==> #[trigger] digits@[i] < 10,
                reduce(digits_value(digits@) as int, scale as nat) == reduce(
                    digits_value(full) as int,
                    full_scale,
                ),
            decreases scale,
        {
            proof {
                lemma_last_digit(digits@);
            }
            digits.pop();
            scale = scale - 1;
        }
        let ghost cut = digits@;
        proof {
            if scale > 0 {
                lemma_last_digit(cut);
            }
        }
        assert(reduce(digits_value(cut) as int, scale as nat) == (
            digits_value(cut) as int,
            scale as nat,
        ));
        let mut k: usize = 0;
        while k < digits.len() && digits[k] == 0
            invariant
                k <= digits@.len(),
                forall|i: int| 0 <= i < k ==> #[trigger] digits@[i] == 0,
            decreases digits@.len() - k,
        {
            k = k + 1;
        }
        let mut kept: Vec<u8> = Vec::new();
        let mut j: usize = k;
        while j < digits.len()
            invariant
                k <= j <= digits@.len(),
                kept@ == digits@.subrange(k as int, j as int),
            decreases digits@.len() - j,
        {
            kept.push(digits[j]);
            j = j + 1;
        }
        proof {
            assert(cut =~= cut.subrange(0, k as int) + kept@);
            lemma_leading_zeros(cut.subrange(0, k as int), kept@);
            if kept@.len() == 0 {
                lemma_zeros(cut);
            }
            lemma_reduce_negate(digits_value(full) as int, full_scale);
        }
        let negative = negative && kept.len() > 0;
        Decimal { negative, digits: kept, scale }
    }

    /// Reads numeral text: `None` unless `text` is a numeral, else its value in
    /// canonical form.
    pub fn from_numeral(text: &[char]) -> (r: Option<Decimal>)
        ensures
            r is Some <==> is_numeral(text@),
            r matches Some(d) ==> d.wf() && d@ == reduce(
                numeral_value(text@).0,
                numeral_value(text@).1,
            ),
    {
        let negative = text.len() > 0 && text[0] == '-';
        let start: usize = if negative {
            1
        } else {
            0
        };
        let ghost u = unsigned_part(text@);
        assert(u =~= text@.subrange(start as int, text@.len() as int));
        let mut digits: Vec<u8> = Vec::new();
        let mut points: usize = 0;
        let mut frac: usize = 0;
        let mut i: usize = start;
        while i < text.len()
            invariant
                start <= i <= text@.len(),
                u == unsigned_part(text@),
                u == text@.subrange(start as int, text@.len() as int),
                digits@ == numeral_digits(text@.subrange(start as int, i as int)),
                points as nat == count_points(text@.subrange(start as int, i as int)),
                frac as nat == fraction_len(text@.subrange(start as int, i as int)),
                points <= i,
                digits@.len() <= i,
                frac <= digits@.len(),
                forall|k: int|
                    start <= k < i ==> is_digit(#[trigger] text@[k]) || text@[k] == '.',
                forall|k: int| 0 <= k < digits@.len() ==> #[trigger] digits@[k] < 10,
            decreases text@.len() - i,
        {
            let c = text[i];
            let ghost before = text@.subrange(start as int, i as int);
            assert(text@.subrange(start as int, i + 1).drop_last() =~= before);
            if '0' <= c && c <= '9' {
                digits.push((c as u32 - '0' as u32) as u8);
                if points > 0 {
                    frac = frac + 1;
                }
            } else if c == '.' {
                points = points + 1;
                frac = 0;
            } else {
                assert(u[i - start] == c);
                return None;
            }
            i = i + 1;
        }
        assert(text@.subrange(start as int, i as int) =~= u);
        if points > 1 || digits.len() == 0 {
            return None;
        }
        assert forall|k: int| 0 <= k < u.len() implies is_digit(#[trigger] u[k]) || u[k] == '.' by {
            assert(u[k] == text@[k + start]);
        }
        Some(Self::canonical(negative, digits, frac))
    }

    /// The digits of the text of this number, zeros added in front where
    /// there are no more digits than the scale.
    fn padded(&self) -> (p: Vec<u8>)
        requires
            self.wf(),
            self.scale < usize::MAX,
        ensures
            p@ == padded_digits(self.digits@, self.scale as nat),
            forall|k: int| 0 <= k < p@.len() ==> #[trigger] p@[k] < 10,
    {
        let n = self.digits.len();
        let scale = self.scale;
        let ghost ds = self.digits@;
        let mut p: Vec<u8> = Vec::new();
        if scale >= n {
            let mut z: usize = 0;
            while z <= scale - n
                invariant
                    n <= scale < usize::MAX,
                    z <= scale - n + 1,
                    p@ == Seq::new(z as nat, |i: int| 0u8),
                decreases scale - n + 1 - z,
            {
                p.push(0);
                z = z + 1;
                assert(p@ =~= Seq::new(z as nat, |i: int| 0u8));
            }
        }
        let ghost zeros = p@;
        let mut j: usize = 0;
        while j < n
            invariant
                n == ds.len(),
                ds == self.digits@,
                j <= n,
                p@ == zeros + ds.take(j as int),
                forall|k: int| 0 <= k < zeros.len() ==> #[trigger] zeros[k] == 0,
                forall|k: int| 0 <= k < ds.len() ==> #[trigger] ds[k] < 10,
                scale >= n ==> zeros == Seq::new((scale - n + 1) as nat, |i: int| 0u8),
                scale < n ==> zeros.len() == 0,
            decreases n - j,
        {
            p.push(self.digits[j]);
            j = j + 1;
            assert(p@ =~= zeros + ds.take(j as int));
        }
        assert(ds.take(n as int) =~= ds);
        assert(p@ =~= padded_digits(ds, scale as nat));
        assert forall|k: int| 0 <= k < p@.len() implies #[trigger] p@[k] < 10 by {
            if k >= zeros.len() {
                assert(p@[k] == ds[k - zeros.len()]);
            }
        }
        p
    }

    /// The number as plain decimal text: `-` for a negative number, the
    /// integer digits (`0` if there are none), and, for a positive scale, a
    /// point followed by exactly `scale` digits.
    pub fn to_text(&self) -> (r: String)
        requires
            self.wf(),
            self.scale < usize::MAX,
        ensures
            r@ == decimal_text(self.negative, self.digits@, self.scale as nat),
    {
        let scale = self.scale;
        let p = self.padded();
        let ghost pd = p@;
        let mut text = String::new();
        if self.negative {
            proof {
                reveal_strlit("-");
            }
            text.append("-");
        }
        let ghost sign = text@;
        let split = p.len() - scale;
        let mut i: usize = 0;
        while i < p.len()
            invariant
                pd == p@,
                split == pd.len() - scale,
                i <= pd.len(),
                forall|k: int| 0 <= k < pd.len() ==> #[trigger] pd[k] < 10,
                text@ == sign + if i <= split {
                    digit_chars(pd.take(i as int))
                } else {
                    digit_chars(pd.take(split as int)) + seq!['.'] + digit_chars(
                        pd.subrange(split as int, i as int),
                    )
                },
            decreases pd.len() - i,
        {
            let ghost before = text@;
            let ghost c = digit_char(pd[i as int]);
            if scale > 0 && i == split {
                proof {
                    reveal_strlit(".");
                }
                text.append(".");
            }
            text.append(digit_str(p[i]));
            proof {
                let head = digit_chars(pd.take(split as int));
                if i < split {
                    assert(digit_chars(pd.take(i + 1)) =~= digit_chars(pd.take(i as int)) + seq![c]);
                    assert(text@ =~= sign + digit_chars(pd.take(i + 1)));
                } else if i == split {
                    assert(digit_chars(pd.subrange(split as int, i + 1)) =~= seq![c]);
                    assert(text@ =~= sign + (head + seq!['.'] + digit_chars(
                        pd.subrange(split as int, i + 1),
                    )));
                } else {
                    assert(digit_chars(pd.subrange(split as int, i + 1)) =~= digit_chars(
                        pd.subrange(split as int, i as int),
                    ) + seq![c]);
                    assert(text@ =~= sign + (head + seq!['.'] + digit_chars(
                        pd.subrange(split as int, i + 1),
                    )));
                }
            }
            i = i + 1;
        }
        assert(pd.subrange(split as int, pd.len() as int) =~= pd.skip(split as int));
        assert(pd.take(pd.len() as int) =~= pd);
        text
    }
}

} // verus!
