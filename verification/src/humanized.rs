//! Compact renderings of byte counts, transfer rates and plain counts.
//!
//! A value is divided by its factor (1024 or 1000) until it falls below the
//! factor or the units run out, in double precision, and is then printed with
//! no decimals, or with one where it is a scaled value below ten.

use vstd::prelude::*;
use vstd::string::StrSliceExecFns;
use crate::rounding::{nearest_double, round_half_even, round_to_double, div_round_half_even, ONE, COUNT_END};
use crate::text::{decimal, spaces, push_decimal, push_spaces};

verus! {

/// A value scaled to its unit: `val` counts units of 2^-52 (see `rounding`),
/// `label` names the unit, and `point` asks for one decimal.
pub struct Preformat {
    pub val: u128,
    pub label: &'static str,
    pub point: bool,
}

/// Divides `n` by `factor`, rounding to a double each time, while it is at
/// least `factor` and at most `left` times. Gives the quotient and the number
/// of divisions.
pub open spec fn scale_down(n: nat, factor: nat, left: nat) -> (nat, nat)
    decreases left,
{
    if left == 0 || n < factor * ONE {
        (n, 0)
    } else {
        let (m, k) = scale_down(nearest_double(n, factor), factor, (left - 1) as nat);
        (m, k + 1)
    }
}

/// The scaled value, unit and precision for `value`: `one_label` is the unit
/// of the value itself, `labels` the units of its successive quotients. A
/// quotient that would print as 1000 or more becomes 1 of the next unit.
pub open spec fn preformat_spec(
    value: u64,
    factor: nat,
    one_label: &'static str,
    labels: Seq<&'static str>,
) -> Preformat {
    let (n, k) = scale_down((nearest_double(value as nat, 1) * ONE) as nat, factor, labels.len());
    let promote = 2 * n >= 1999 * ONE && k < labels.len();
    let val = if promote { ONE as nat } else { n };
    let unit = if promote { k + 1 } else { k };
    Preformat {
        val: val as u128,
        label: if unit == 0 { one_label } else { labels[unit - 1] },
        point: value >= 1000 && 2 * val < 19 * ONE,
    }
}

pub fn preformat(
    value: u64,
    factor: u64,
    one_label: &'static str,
    labels: &[&'static str],
) -> (p: Preformat)
    requires
        factor >= 2,
    ensures
        p == preformat_spec(value, factor as nat, one_label, labels@),
        p.val * 10 < COUNT_END,
{
    let whole: u128 = round_to_double(value as u128, 1);
    let start: u128 = whole * ONE;
    let mut val: u128 = start;
    let mut label: &'static str = one_label;
    let mut used: usize = 0;
    while used < labels.len() && val >= (factor as u128) * ONE
        invariant
            factor >= 2,
            used <= labels.len(),
            val <= start,
            start < 0x40_0000_0000_0000_0000_0000_0000_0000,
            label == (if used == 0 { one_label } else { labels@[used - 1] }),
            scale_down(start as nat, factor as nat, labels@.len()).0 == scale_down(
                val as nat,
                factor as nat,
                (labels@.len() - used) as nat,
            ).0,
            scale_down(start as nat, factor as nat, labels@.len()).1 == scale_down(
                val as nat,
                factor as nat,
                (labels@.len() - used) as nat,
            ).1 + used,
        decreases labels.len() - used,
    {
        let next: u128 = round_to_double(val, factor);
        proof {
            let f = factor as u128;
            assert(val / f <= val / 2 && val >= 2 * ONE) by (nonlinear_arith)
                requires
                    f >= 2,
                    val >= f * ONE,
                    ONE == 0x10_0000_0000_0000,
            ;
        }
        label = labels[used];
        val = next;
        used = used + 1;
    }
    let promote: bool = 2 * val >= 1999 * ONE && used < labels.len();
    if promote {
        val = ONE;
        label = labels[used];
    }
    Preformat { val, label, point: value >= 1000 && 2 * val < 19 * ONE }
}

/// The digits that stand for `val`: rounded to a whole number, or to one decimal.
pub open spec fn number_text(val: nat, point: bool) -> Seq<char> {
    if point {
        let tenths = round_half_even((val * 10) as nat, ONE as nat);
        decimal((tenths / 10) as nat) + seq!['.'] + decimal((tenths % 10) as nat)
    } else {
        decimal(round_half_even(val, ONE as nat))
    }
}

/// `text` after as many spaces as bring it to `width` characters.
pub open spec fn pad_left(text: Seq<char>, width: nat) -> Seq<char> {
    if text.len() < width {
        spaces((width - text.len()) as nat) + text
    } else {
        text
    }
}

/// `text` before as many spaces as bring it to `width` characters.
pub open spec fn pad_right(text: Seq<char>, width: nat) -> Seq<char> {
    if text.len() < width {
        text + spaces((width - text.len()) as nat)
    } else {
        text
    }
}

/// The rendering of a scaled value: number and unit, each padded to its
/// column (three characters for the number) where `fixed_width` is set.
pub open spec fn render(p: Preformat, fixed_width: bool, label_width: nat) -> Seq<char> {
    if fixed_width {
        pad_left(number_text(p.val as nat, p.point), 3) + pad_right(p.label@, label_width)
    } else {
        number_text(p.val as nat, p.point) + p.label@
    }
}

fn number_string(val: u128, point: bool) -> (s: String)
    requires
        val * 10 < COUNT_END,
    ensures
        s@ == number_text(val as nat, point),
{
    let mut s = String::new();
    if point {
        let tenths: u128 = div_round_half_even(val * 10, ONE);
        push_decimal(&mut s, tenths / 10);
        s.push('.');
        push_decimal(&mut s, tenths % 10);
    } else {
        push_decimal(&mut s, div_round_half_even(val, ONE));
    }
    s
}

fn render_parts(p: &Preformat, fixed_width: bool, label_width: usize) -> (s: String)
    requires
        p.val * 10 < COUNT_END,
    ensures
        s@ == render(*p, fixed_width, label_width as nat),
{
    let number = number_string(p.val, p.point);
    let mut s = String::new();
    if fixed_width {
        let digits: usize = number.as_str().unicode_len();
        if digits < 3 {
            push_spaces(&mut s, 3 - digits);
        }
        s.push_str(number.as_str());
        s.push_str(p.label);
        let letters: usize = p.label.unicode_len();
        if letters < label_width {
            push_spaces(&mut s, label_width - letters);
        }
    } else {
        s.push_str(number.as_str());
        s.push_str(p.label);
    }
    s
}

/// A number of bytes, rendered with the binary units `B`, `KiB`, `MiB`, `GiB`.
#[derive(Debug)]
pub struct HumanizedBytes {
    bytes: u64,
    fixed_width: bool,
}

/// The rendering of a number of bytes.
pub open spec fn bytes_text(bytes: u64, fixed_width: bool) -> Seq<char> {
    render(preformat_spec(bytes, 1024, "B", seq!["KiB", "MiB", "GiB"]), fixed_width, 3)
}

impl HumanizedBytes {
    /// Width in characters of a fixed-width rendering below a thousand GiB.
    pub const FIXED_WIDTH_WIDTH: usize = 6;

    pub closed spec fn bytes(&self) -> u64 {
        self.bytes
    }

    pub closed spec fn is_fixed_width(&self) -> bool {
        self.fixed_width
    }

    /// A rendering that is as short as the value allows.
    pub fn new(bytes: u64) -> (h: Self)
        ensures
            h.bytes() == bytes,
            !h.is_fixed_width(),
    {
        HumanizedBytes { bytes, fixed_width: false }
    }

    /// A rendering in columns: three characters for the number, three for the unit.
    pub fn fixed_width(bytes: u64) -> (h: Self)
        ensures
            h.bytes() == bytes,
            h.is_fixed_width(),
    {
        HumanizedBytes { bytes, fixed_width: true }
    }

    pub fn to_string(&self) -> (s: String)
        ensures
            s@ == bytes_text(self.bytes(), self.is_fixed_width()),
    {
        let labels: [&'static str; 3] = ["KiB", "MiB", "GiB"];
        let p = preformat(self.bytes, 1024, "B", labels.as_slice());
        assert(labels@ == seq!["KiB", "MiB", "GiB"]);
        render_parts(&p, self.fixed_width, 3)
    }
}

/// A number of bytes per second, rendered with the units `B/s`, `KiB/s`,
/// `MiB/s`, `GiB/s`.
pub struct HumanizedBytesPerSecond {
    bytes_per_second: u64,
    fixed_width: bool,
}

/// The rendering of a number of bytes per second.
pub open spec fn bytes_per_second_text(bytes_per_second: u64, fixed_width: bool) -> Seq<char> {
    render(
        preformat_spec(bytes_per_second, 1024, "B/s", seq!["KiB/s", "MiB/s", "GiB/s"]),
        fixed_width,
        5,
    )
}

impl HumanizedBytesPerSecond {
    /// Width in characters of a fixed-width rendering below a thousand GiB/s.
    pub const FIXED_WIDTH_WIDTH: usize = HumanizedBytes::FIXED_WIDTH_WIDTH + 2;

    pub closed spec fn bytes_per_second(&self) -> u64 {
        self.bytes_per_second
    }

    pub closed spec fn is_fixed_width(&self) -> bool {
        self.fixed_width
    }

    /// A rendering that is as short as the value allows.
    pub fn new(bytes_per_second: u64) -> (h: Self)
        ensures
            h.bytes_per_second() == bytes_per_second,
            !h.is_fixed_width(),
    {
        HumanizedBytesPerSecond { bytes_per_second, fixed_width: false }
    }

    /// A rendering in columns: three characters for the number, five for the unit.
    pub fn fixed_width(bytes_per_second: u64) -> (h: Self)
        ensures
            h.bytes_per_second() == bytes_per_second,
            h.is_fixed_width(),
    {
        HumanizedBytesPerSecond { bytes_per_second, fixed_width: true }
    }

    pub fn to_string(&self) -> (s: String)
        ensures
            s@ == bytes_per_second_text(self.bytes_per_second(), self.is_fixed_width()),
    {
        let labels: [&'static str; 3] = ["KiB/s", "MiB/s", "GiB/s"];
        let p = preformat(self.bytes_per_second, 1024, "B/s", labels.as_slice());
        assert(labels@ == seq!["KiB/s", "MiB/s", "GiB/s"]);
        render_parts(&p, self.fixed_width, 5)
    }
}

/// A count, rendered in thousands (`K`), millions (`M`) or billions (`B`).
pub struct HumanizedCount {
    count: u64,
    fixed_width: bool,
}

/// The rendering of a count.
pub open spec fn count_text(count: u64, fixed_width: bool) -> Seq<char> {
    render(preformat_spec(count, 1000, "", seq!["K", "M", "B"]), fixed_width, 1)
}

impl HumanizedCount {
    pub closed spec fn count(&self) -> u64 {
        self.count
    }

    pub closed spec fn is_fixed_width(&self) -> bool {
        self.fixed_width
    }

    /// A rendering that is as short as the value allows.
    pub fn new(count: u64) -> (h: Self)
        ensures
            h.count() == count,
            !h.is_fixed_width(),
    {
        HumanizedCount { count, fixed_width: false }
    }

    /// A rendering in columns: three characters for the number, one for the unit.
    pub fn fixed_width(count: u64) -> (h: Self)
        ensures
            h.count() == count,
            h.is_fixed_width(),
    {
        HumanizedCount { count, fixed_width: true }
    }

    pub fn to_string(&self) -> (s: String)
        ensures
            s@ == count_text(self.count(), self.is_fixed_width()),
    {
        let labels: [&'static str; 3] = ["K", "M", "B"];
        let p = preformat(self.count, 1000, "", labels.as_slice());
        assert(labels@ == seq!["K", "M", "B"]);
        render_parts(&p, self.fixed_width, 1)
    }
}

/// A number below ten has one digit, below a hundred two, below a thousand three.
pub proof fn lemma_decimal_len(n: nat)
    requires
        n < 1000,
    ensures
        decimal(n).len() == (if n < 10 {
            1nat
        } else if n < 100 {
            2nat
        } else {
            3nat
        }),
{
    if n >= 10 {
        let tens = n / 10;
        assert(decimal(n) == decimal(tens).push(crate::text::digit(n % 10)));
        if tens >= 10 {
            let hundreds = tens / 10;
            assert(decimal(tens) == decimal(hundreds).push(crate::text::digit(tens % 10)));
            assert(decimal(hundreds).len() == 1);
        } else {
            assert(decimal(tens).len() == 1);
        }
    }
}

/// The steps of `scale_down` are at most as many as it is allowed.
pub proof fn lemma_scale_down_steps(n: nat, factor: nat, left: nat)
    ensures
        scale_down(n, factor, left).1 <= left,
    decreases left,
{
    if left != 0 && n >= factor * ONE {
        lemma_scale_down_steps(nearest_double(n, factor), factor, (left - 1) as nat);
    }
}

/// The fixed-width rendering of a scaled value that prints with at most
/// three digits fills its columns exactly: three characters for the number
/// and `label_width` for the unit.
pub proof fn lemma_fixed_width(p: Preformat, label_width: nat)
    requires
        2 * p.val < 1999 * ONE,
        p.point ==> 2 * p.val < 19 * ONE,
        p.label@.len() <= label_width,
    ensures
        render(p, true, label_width).len() == 3 + label_width,
{
    let val = p.val as nat;
    if p.point {
        let tenths = round_half_even((val * 10) as nat, ONE as nat);
        assert(tenths <= 95) by {
            let scaled = (val * 10) as nat;
            let one = ONE as nat;
            assert(scaled / one < 95) by (nonlinear_arith)
                requires
                    2 * scaled < 190 * one,
                    one == 0x10_0000_0000_0000,
            ;
        }
        lemma_decimal_len((tenths / 10) as nat);
        lemma_decimal_len((tenths % 10) as nat);
    } else {
        let whole = round_half_even(val, ONE as nat);
        assert(whole <= 999) by {
            let q = val / (ONE as nat);
            let r = val % (ONE as nat);
            assert(q <= 999 && (q == 999 ==> 2 * r < ONE)) by (nonlinear_arith)
                requires
                    2 * val < 1999 * ONE,
                    ONE == 0x10_0000_0000_0000,
                    q == val / (ONE as nat),
                    r == val % (ONE as nat),
            ;
        }
        lemma_decimal_len(whole);
    }
}

/// A fixed-width rendering of bytes is `FIXED_WIDTH_WIDTH` characters wide,
/// unless it is of a thousand GiB or more.
pub proof fn law_bytes_fixed_width(bytes: u64)
    requires
        2 * preformat_spec(bytes, 1024, "B", seq!["KiB", "MiB", "GiB"]).val < 1999 * ONE,
    ensures
        bytes_text(bytes, true).len() == HumanizedBytes::FIXED_WIDTH_WIDTH,
{
    reveal_strlit("B");
    reveal_strlit("KiB");
    reveal_strlit("MiB");
    reveal_strlit("GiB");
    let labels: Seq<&'static str> = seq!["KiB", "MiB", "GiB"];
    lemma_scale_down_steps((nearest_double(bytes as nat, 1) * ONE) as nat, 1024, labels.len());
    lemma_fixed_width(preformat_spec(bytes, 1024, "B", labels), 3);
}

/// A fixed-width rendering of a rate is `FIXED_WIDTH_WIDTH` characters wide,
/// unless it is of a thousand GiB/s or more.
pub proof fn law_rate_fixed_width(bytes_per_second: u64)
    requires
        2 * preformat_spec(bytes_per_second, 1024, "B/s", seq!["KiB/s", "MiB/s", "GiB/s"]).val
            < 1999 * ONE,
    ensures
        bytes_per_second_text(bytes_per_second, true).len()
            == HumanizedBytesPerSecond::FIXED_WIDTH_WIDTH,
{
    reveal_strlit("B/s");
    reveal_strlit("KiB/s");
    reveal_strlit("MiB/s");
    reveal_strlit("GiB/s");
    let labels: Seq<&'static str> = seq!["KiB/s", "MiB/s", "GiB/s"];
    lemma_scale_down_steps(
        (nearest_double(bytes_per_second as nat, 1) * ONE) as nat,
        1024,
        labels.len(),
    );
    lemma_fixed_width(preformat_spec(bytes_per_second, 1024, "B/s", labels), 5);
}

/// A fixed-width rendering of a count is four characters wide, unless it is
/// of a thousand billions or more.
pub proof fn law_count_fixed_width(count: u64)
    requires
        2 * preformat_spec(count, 1000, "", seq!["K", "M", "B"]).val < 1999 * ONE,
    ensures
        count_text(count, true).len() == 4,
{
    reveal_strlit("");
    reveal_strlit("K");
    reveal_strlit("M");
    reveal_strlit("B");
    let labels: Seq<&'static str> = seq!["K", "M", "B"];
    lemma_scale_down_steps((nearest_double(count as nat, 1) * ONE) as nat, 1000, labels.len());
    lemma_fixed_width(preformat_spec(count, 1000, "", labels), 1);
}

} // verus!
