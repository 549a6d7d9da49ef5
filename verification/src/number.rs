use vstd::prelude::*;

verus! {

/// A decimal literal, held exactly: the digits before the decimal point and
/// the digits after it, most significant first, each between 0 and 9.
#[derive(Debug, Clone, PartialEq, Eq)]
pub struct Decimal {
    pub whole: Vec<u8>,
    pub fraction: Vec<u8>,
}

/// The mathematical content of a [`Decimal`].
pub struct DecimalView {
    pub whole: Seq<u8>,
    pub fraction: Seq<u8>,
}

impl View for Decimal {
    type V = DecimalView;

    open spec fn view(&self) -> DecimalView {
        DecimalView { whole: self.whole@, fraction: self.fraction@ }
    }
}

impl DeepView for Decimal {
    type V = DecimalView;

    open spec fn deep_view(&self) -> DecimalView {
        self@
    }
}

/// The ten decimal digits.
pub open spec fn is_digit(c: char) -> bool {
    '0' <= c && c <= '9'
}

/// The characters a number is made of: digits and the decimal point.
pub open spec fn is_number_char(c: char) -> bool {
    is_digit(c) || c == '.'
}

/// The number that a digit stands for.
pub open spec fn digit_value(c: char) -> u8 {
    (c as u32 - '0' as u32) as u8
}

/// The digit that stands for a number below ten.
pub open spec fn digit_char(d: u8) -> char {
    (d as u32 + '0' as u32) as char
}

/// Digit by digit, the numbers that the digits stand for.
pub open spec fn digit_values(s: Seq<char>) -> Seq<u8> {
    s.map_values(|c: char| digit_value(c))
}

/// Number by number, the digits that stand for the numbers.
pub open spec fn digit_chars(s: Seq<u8>) -> Seq<char> {
    s.map_values(|d: u8| digit_char(d))
}

/// Every entry is below ten.
pub open spec fn all_digits(s: Seq<u8>) -> bool {
    forall|i: int| 0 <= i < s.len() ==> s[i] <= 9
}

impl DecimalView {
    /// At least one digit before the point, and nothing but digits.
    pub open spec fn wf(self) -> bool {
        &&& self.whole.len() > 0
        &&& all_digits(self.whole)
        &&& all_digits(self.fraction)
    }

    /// The literal written out: the whole digits, then, if there are
    /// fraction digits, a point and those.
    pub open spec fn text(self) -> Seq<char> {
        if self.fraction.len() == 0 {
            digit_chars(self.whole)
        } else {
            digit_chars(self.whole) + seq!['.'] + digit_chars(self.fraction)
        }
    }
}

/// What a run of digits and points denotes. Without a point the run is the
/// whole part; with one, the point parts whole from fraction; a second point
/// makes the run no number at all.
pub open spec fn decimal_of(run: Seq<char>) -> Option<DecimalView> {
    match run.index_of_first('.') {
        None => Some(DecimalView { whole: digit_values(run), fraction: Seq::empty() }),
        Some(d) => {
            let rest = run.subrange(d + 1, run.len() as int);
            if rest.contains('.') {
                None
            } else {
                Some(
                    DecimalView {
                        whole: digit_values(run.subrange(0, d)),
                        fraction: digit_values(rest),
                    },
                )
            }
        },
    }
}

/// A literal as a user writes it: it starts with a digit, holds nothing but
/// digits and points, and at most one point.
pub open spec fn is_literal(text: Seq<char>) -> bool {
    &&& text.len() > 0
    &&& is_digit(text[0])
    &&& forall|i: int| 0 <= i < text.len() ==> is_number_char(#[trigger] text[i])
    &&& decimal_of(text) is Some
}

/// The digit that stands for `d`.
pub fn digit_to_char(d: u8) -> (c: char)
    requires
        d <= 9,
    ensures
        c == digit_char(d),
        is_digit(c),
        digit_value(c) == d,
{
    (d + 48) as char
}

/// The number that the digit `c` stands for.
pub fn char_to_digit(c: char) -> (d: u8)
    requires
        is_digit(c),
    ensures
        d == digit_value(c),
        d <= 9,
        digit_char(d) == c,
{
    let code: u32 = c as u32;
    (code - 48) as u8
}

/// Whether every entry is a decimal digit.
fn digits_only(digits: &Vec<u8>) -> (yes: bool)
    ensures
        yes == all_digits(digits@),
{
    let mut i: usize = 0;
    while i < digits.len()
        invariant
            i <= digits.len(),
            forall|k: int| 0 <= k < i ==> digits@[k] <= 9,
        decreases digits.len() - i,
    {
        if digits[i] > 9 {
            return false;
        }
        i = i + 1;
    }
    true
}

impl Decimal {
    /// Whether the value is a sound decimal: see [`DecimalView::wf`].
    pub fn is_valid(&self) -> (yes: bool)
        ensures
            yes == self@.wf(),
    {
        self.whole.len() > 0 && digits_only(&self.whole) && digits_only(&self.fraction)
    }

    /// The literal's characters, as [`DecimalView::text`] spells them.
    pub fn to_chars(&self) -> (out: Vec<char>)
        requires
            self@.wf(),
        ensures
            out@ == self@.text(),
    {
        let mut out: Vec<char> = Vec::new();
        let mut i: usize = 0;
        while i < self.whole.len()
            invariant
                i <= self.whole.len(),
                self@.wf(),
                out@ == digit_chars(self.whole@.take(i as int)),
            decreases self.whole.len() - i,
        {
            out.push(digit_to_char(self.whole[i]));
            assert(self.whole@.take(i + 1) == self.whole@.take(i as int).push(self.whole@[i as int]));
            i = i + 1;
        }
        assert(self.whole@.take(i as int) == self.whole@);
        if self.fraction.len() > 0 {
            out.push('.');
            let mut j: usize = 0;
            while j < self.fraction.len()
                invariant
                    j <= self.fraction.len(),
                    self@.wf(),
                    out@ == digit_chars(self.whole@) + seq!['.'] + digit_chars(
                        self.fraction@.take(j as int),
                    ),
                decreases self.fraction.len() - j,
            {
                out.push(digit_to_char(self.fraction[j]));
                assert(self.fraction@.take(j + 1) == self.fraction@.take(j as int).push(
                    self.fraction@[j as int],
                ));
                j = j + 1;
            }
            assert(self.fraction@.take(j as int) == self.fraction@);
        }
        out
    }
}

/// A digit written out and read again is the digit.
proof fn lemma_digits_round_trip(digits: Seq<u8>)
    requires
        all_digits(digits),
    ensures
        digit_values(digit_chars(digits)) == digits,
        forall|i: int| 0 <= i < digits.len() ==> is_digit(#[trigger] digit_chars(digits)[i]),
{
    assert forall|i: int| 0 <= i < digits.len() implies is_digit(#[trigger] digit_chars(digits)[i])
        && digit_value(digit_chars(digits)[i]) == digits[i] by {
        let d = digits[i];
        assert(d <= 9);
        assert(digit_chars(digits)[i] == digit_char(d));
    }
    assert(digit_values(digit_chars(digits)) =~= digits);
}

/// A sound decimal written out is a literal, and denotes the decimal.
pub proof fn lemma_decimal_round_trip(d: DecimalView)
    requires
        d.wf(),
    ensures
        decimal_of(d.text()) == Some(d),
        is_literal(d.text()),
{
    let text = d.text();
    let whole = digit_chars(d.whole);
    let fraction = digit_chars(d.fraction);
    lemma_digits_round_trip(d.whole);
    lemma_digits_round_trip(d.fraction);
    text.index_of_first_ensures('.');
    assert(text[0] == whole[0]);
    if d.fraction.len() == 0 {
        if text.contains('.') {
            let k = choose|k: int| 0 <= k < text.len() && text[k] == '.';
            assert(is_digit(whole[k]));
        }
        assert(d.fraction =~= Seq::<u8>::empty());
    } else {
        let at = whole.len() as int;
        assert(text[at] == '.');
        let found = text.index_of_first('.')->Some_0;
        if found < at {
            assert(is_digit(whole[found]));
        }
        assert(found == at);
        let rest = text.subrange(at + 1, text.len() as int);
        assert(rest =~= fraction);
        assert(text.subrange(0, at) =~= whole);
        if rest.contains('.') {
            let k = choose|k: int| 0 <= k < rest.len() && rest[k] == '.';
            assert(is_digit(fraction[k]));
        }
    }
    assert forall|i: int| 0 <= i < text.len() implies is_number_char(#[trigger] text[i]) by {
        if i < whole.len() {
            assert(is_digit(whole[i]));
        } else if d.fraction.len() > 0 && i > whole.len() {
            assert(text[i] == fraction[i - whole.len() - 1]);
            assert(is_digit(fraction[i - whole.len() - 1]));
        }
    }
}

} // verus!
