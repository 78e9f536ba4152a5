//! Characters and text: equality, white space, numerals and building strings.

use vstd::prelude::*;

verus! {

/// `String::push` of std: appends one character at the end.
pub assume_specification[ String::push ](s: &mut String, c: char)
    ensures
        final(s)@ == old(s)@.push(c),
;

/// Whether two pieces of text hold the same characters.
pub fn same_text(a: &str, b: &str) -> (r: bool)
    ensures
        r == (a@ == b@),
{
    let mut rest = b.chars();
    assert(b@.skip(0) =~= b@);
    for c in it: a.chars()
        invariant
            it.seq() == a@,
            it.index() <= b@.len(),
            vstd::std_specs::iter::IteratorSpec::remaining(&rest) == b@.skip(it.index() as int),
            a@.take(it.index() as int) =~= b@.take(it.index() as int),
    {
        let ghost i = it.index() as int;
        match rest.next() {
            Some(d) => {
                if c != d {
                    assert(a@[i] != b@[i]);
                    return false;
                }
                assert(b@.skip(i).drop_first() =~= b@.skip(i + 1));
            },
            None => {
                assert(b@.len() == i);
                return false;
            },
        }
    }
    assert(a@.take(a@.len() as int) =~= a@);
    match rest.next() {
        Some(_) => false,
        None => {
            assert(b@.take(b@.len() as int) =~= b@);
            true
        },
    }
}

/// The characters of a piece of text, in order.
pub fn chars_of(s: &str) -> (r: Vec<char>)
    ensures
        r@ == s@,
{
    let mut out: Vec<char> = Vec::new();
    for c in it: s.chars()
        invariant
            it.seq() == s@,
            out@ == s@.take(it.index() as int),
    {
        out.push(c);
    }
    assert(s@.take(s@.len() as int) =~= s@);
    out
}

/// The text made of `chars[from..to]`.
pub fn text_of(chars: &Vec<char>, from: usize, to: usize) -> (r: String)
    requires
        from <= to <= chars@.len(),
    ensures
        r@ == chars@.subrange(from as int, to as int),
{
    let mut out = String::new();
    let mut i: usize = from;
    while i < to
        invariant
            from <= i <= to <= chars@.len(),
            out@ =~= chars@.subrange(from as int, i as int),
        decreases to - i,
    {
        out.push(chars[i]);
        i += 1;
    }
    out
}

/// Two pieces of text, one after the other.
pub fn concat(a: &str, b: &str) -> (r: String)
    ensures
        r@ == a@ + b@,
{
    let mut out = a.to_owned();
    for c in it: b.chars()
        invariant
            it.seq() == b@,
            out@ =~= a@ + b@.take(it.index() as int),
    {
        out.push(c);
    }
    assert(b@.take(b@.len() as int) =~= b@);
    out
}

/// The characters with the Unicode property `White_Space`.
pub open spec fn white_space(c: char) -> bool {
    ||| '\u{9}' <= c <= '\u{d}'
    ||| c == '\u{20}'
    ||| c == '\u{85}'
    ||| c == '\u{a0}'
    ||| c == '\u{1680}'
    ||| '\u{2000}' <= c <= '\u{200a}'
    ||| c == '\u{2028}'
    ||| c == '\u{2029}'
    ||| c == '\u{202f}'
    ||| c == '\u{205f}'
    ||| c == '\u{3000}'
}

/// Whether a character is white space.
pub fn is_white_space(c: char) -> (r: bool)
    ensures
        r == white_space(c),
{
    ('\u{9}' <= c && c <= '\u{d}') || c == '\u{20}' || c == '\u{85}' || c == '\u{a0}' || c
        == '\u{1680}' || ('\u{2000}' <= c && c <= '\u{200a}') || c == '\u{2028}' || c == '\u{2029}'
        || c == '\u{202f}' || c == '\u{205f}' || c == '\u{3000}'
}

/// The character of a decimal digit below ten.
pub open spec fn digit(d: nat) -> char {
    (48 + d) as char
}

/// The decimal numeral of `n`, without leading zeros.
pub open spec fn decimal(n: nat) -> Seq<char>
    decreases n,
{
    if n < 10 {
        seq![digit(n)]
    } else {
        decimal(n / 10).push(digit(n % 10))
    }
}

/// Different numbers have different numerals.
pub proof fn decimal_injective(a: nat, b: nat)
    requires
        decimal(a) == decimal(b),
    ensures
        a == b,
    decreases a,
{
    assert(decimal(a).last() == digit(a % 10));
    assert(decimal(b).last() == digit(b % 10));
    assert(digit(a % 10) as nat == 48 + a % 10);
    assert(digit(b % 10) as nat == 48 + b % 10);
    if a < 10 || b < 10 {
        if a >= 10 {
            decimal_nonempty(a / 10);
            assert(decimal(a).len() >= 2);
        }
        if b >= 10 {
            decimal_nonempty(b / 10);
            assert(decimal(b).len() >= 2);
        }
    } else {
        assert(decimal(a).drop_last() =~= decimal(a / 10));
        assert(decimal(b).drop_last() =~= decimal(b / 10));
        decimal_injective(a / 10, b / 10);
    }
}

/// The decimal numeral of a number.
pub fn numeral_of(n: u32) -> (r: String)
    ensures
        r@ == decimal(n as nat),
    decreases n,
{
    if n < 10 {
        let mut out = String::new();
        out.push((48 + n as u8) as char);
        assert(out@ =~= seq![digit(n as nat)]);
        out
    } else {
        let mut out = numeral_of(n / 10);
        out.push((48 + (n % 10) as u8) as char);
        out
    }
}

/// Numerals are made of digits.
pub proof fn decimal_digits(n: nat)
    ensures
        forall|i: int|
            0 <= i < decimal(n).len() ==> '0' <= #[trigger] decimal(n)[i] && decimal(n)[i] <= '9',
    decreases n,
{
    assert(forall|d: nat| d < 10 ==> '0' <= #[trigger] digit(d) && digit(d) <= '9');
    if n >= 10 {
        decimal_digits(n / 10);
        assert forall|i: int| 0 <= i < decimal(n).len() implies '0' <= #[trigger] decimal(n)[i]
            && decimal(n)[i] <= '9' by {
            if i < decimal(n / 10).len() {
                assert(decimal(n)[i] == decimal(n / 10)[i]);
            }
        }
    }
}

/// A numeral has at least one digit, and every one of its characters is a digit.
pub proof fn decimal_nonempty(n: nat)
    ensures
        decimal(n).len() >= 1,
        forall|i: int| 0 <= i < decimal(n).len() ==> '0' <= #[trigger] decimal(n)[i] <= '9',
    decreases n,
{
    if n >= 10 {
        decimal_nonempty(n / 10);
    }
}

/// The number that little-endian decimal digits stand for.
pub open spec fn digits_value(s: Seq<u8>) -> nat
    decreases s.len(),
{
    if s.len() == 0 {
        0
    } else {
        s[0] as nat + 10 * digits_value(s.skip(1))
    }
}

/// A counter that never wraps: it counts in decimal digits and grows by a digit when it must.
#[derive(Debug)]
pub struct Counter {
    digits: Vec<u8>,
}

impl View for Counter {
    type V = nat;

    closed spec fn view(&self) -> nat {
        digits_value(self.digits@)
    }
}

/// Adds one to the number in `digits[i..]`.
fn bump(digits: &mut Vec<u8>, i: usize)
    requires
        i <= old(digits)@.len(),
        forall|k: int| 0 <= k < old(digits)@.len() ==> #[trigger] old(digits)@[k] < 10,
        i < old(digits)@.len() ==> old(digits)@.last() != 0,
    ensures
        final(digits)@.len() >= old(digits)@.len(),
        final(digits)@.take(i as int) == old(digits)@.take(i as int),
        forall|k: int| 0 <= k < final(digits)@.len() ==> #[trigger] final(digits)@[k] < 10,
        final(digits)@.len() > i,
        final(digits)@.last() != 0,
        digits_value(final(digits)@.skip(i as int)) == digits_value(old(digits)@.skip(i as int))
            + 1,
    decreases old(digits)@.len() - i,
{
    let ghost before = digits@;
    if i == digits.len() {
        digits.push(1);
        assert(digits@.skip(i as int) =~= seq![1u8]);
        assert(digits@.skip(i as int).skip(1) =~= Seq::<u8>::empty());
        assert(digits_value(Seq::<u8>::empty()) == 0);
        assert(before.skip(i as int) =~= Seq::<u8>::empty());
        assert(digits@.take(i as int) =~= before.take(i as int));
    } else if digits[i] < 9 {
        let d: u8 = digits[i];
        digits.set(i, d + 1);
        assert(digits@.skip(i as int).skip(1) =~= before.skip(i as int).skip(1));
        assert(digits@.take(i as int) =~= before.take(i as int));
    } else {
        digits.set(i, 0);
        let ghost mid = digits@;
        assert(mid.skip(i + 1) =~= before.skip(i as int).skip(1));
        assert(i + 1 < mid.len() ==> mid.last() == before.last());
        bump(digits, i + 1);
        assert(digits@.skip(i as int).skip(1) =~= digits@.skip(i + 1));
        assert(digits@[i as int] == digits@.take(i + 1)[i as int]);
        assert(mid.take(i + 1)[i as int] == 0);
        assert(digits@.take(i as int) =~= digits@.take(i + 1).take(i as int));
        assert(before.take(i as int) =~= mid.take(i + 1).take(i as int));
    }
}

impl Counter {
    /// Every digit is below ten and there is no leading zero.
    pub closed spec fn wf(&self) -> bool {
        &&& forall|k: int| 0 <= k < self.digits@.len() ==> #[trigger] self.digits@[k] < 10
        &&& self.digits@.len() > 0 ==> self.digits@.last() != 0
    }

    /// A counter at zero.
    pub fn new() -> (r: Counter)
        ensures
            r.wf(),
            r@ == 0,
    {
        Counter { digits: Vec::new() }
    }

    /// Counts one more.
    pub fn next(&mut self)
        requires
            old(self).wf(),
        ensures
            final(self).wf(),
            final(self)@ == old(self)@ + 1,
    {
        assert(self.digits@.skip(0) =~= self.digits@);
        bump(&mut self.digits, 0);
        assert(self.digits@.skip(0) =~= self.digits@);
    }

    /// The count as a decimal numeral.
    pub fn numeral(&self) -> (r: String)
        requires
            self.wf(),
        ensures
            r@ == decimal(self@),
    {
        let mut out = String::new();
        if self.digits.len() == 0 {
            out.push('0');
            assert(out@ =~= seq!['0']);
            return out;
        }
        let mut i: usize = self.digits.len();
        while i > 0
            invariant
                self.wf(),
                self.digits@.len() > 0,
                i <= self.digits@.len(),
                i == self.digits@.len() ==> out@.len() == 0,
                i < self.digits@.len() ==> {
                    &&& out@ == decimal(digits_value(self.digits@.skip(i as int)))
                    &&& digits_value(self.digits@.skip(i as int)) > 0
                },
            decreases i,
        {
            let ghost done = out@;
            i -= 1;
            let d: u8 = self.digits[i];
            out.push((48 + d) as char);
            proof {
                let here = self.digits@.skip(i as int);
                assert(here.skip(1) =~= self.digits@.skip(i + 1));
                if i + 1 == self.digits@.len() {
                    assert(here.skip(1) =~= Seq::<u8>::empty());
                    assert(digits_value(here) == d);
                    assert(out@ =~= seq![digit(d as nat)]);
                } else {
                    let rest = digits_value(here.skip(1));
                    assert(digits_value(here) == d + 10 * rest);
                    assert(digits_value(here) / 10 == rest);
                    assert(digits_value(here) % 10 == d as nat);
                }
            }
        }
        assert(self.digits@.skip(0) =~= self.digits@);
        out
    }
}

/// Whether a character is a decimal digit.
pub open spec fn is_digit(c: char) -> bool {
    '0' <= c <= '9'
}

/// The number that a run of decimal digits stands for.
pub open spec fn numeral_value(s: Seq<char>) -> nat
    decreases s.len(),
{
    if s.len() == 0 {
        0
    } else {
        10 * numeral_value(s.drop_last()) + (s.last() as nat - 48) as nat
    }
}

/// What follows an optional leading plus sign.
pub open spec fn after_plus(s: Seq<char>) -> Seq<char> {
    if s.len() > 0 && s[0] == '+' {
        s.skip(1)
    } else {
        s
    }
}

/// The 32-bit number that a piece of text spells: an optional plus sign, then one or more decimal
/// digits, with a value that fits. Any other text spells no number.
pub open spec fn number(s: Seq<char>) -> Option<u32> {
    let digits = after_plus(s);
    if digits.len() > 0 && (forall|i: int| 0 <= i < digits.len() ==> #[trigger] is_digit(digits[i]))
        && numeral_value(digits) <= u32::MAX {
        Some(numeral_value(digits) as u32)
    } else {
        None
    }
}

proof fn numeral_value_grows(s: Seq<char>, n: int)
    requires
        0 <= n <= s.len(),
    ensures
        numeral_value(s.take(n)) <= numeral_value(s),
    decreases s.len(),
{
    if n == s.len() {
        assert(s.take(n) =~= s);
    } else {
        numeral_value_grows(s.drop_last(), n);
        assert(s.drop_last().take(n) =~= s.take(n));
    }
}

/// Reads a 32-bit number.
pub fn parse_number(s: &str) -> (r: Option<u32>)
    ensures
        r == number(s@),
{
    let chars = chars_of(s);
    let mut i: usize = 0;
    if chars.len() > 0 && chars[0] == '+' {
        i = 1;
    }
    let start: usize = i;
    let ghost digits = after_plus(s@);
    assert(digits =~= s@.skip(start as int));
    if start == chars.len() {
        return None;
    }
    let mut acc: u64 = 0;
    assert(digits.take(0) =~= Seq::<char>::empty());
    while i < chars.len()
        invariant
            chars@ == s@,
            start <= i <= chars@.len(),
            start < chars@.len(),
            digits == after_plus(s@),
            digits == s@.skip(start as int),
            acc == numeral_value(digits.take(i - start)),
            acc <= u32::MAX,
            forall|k: int| 0 <= k < i - start ==> #[trigger] is_digit(digits[k]),
        decreases chars@.len() - i,
    {
        let c = chars[i];
        assert(digits[i - start] == c);
        if !('0' <= c && c <= '9') {
            assert(!is_digit(digits[i - start]));
            return None;
        }
        let d: u64 = (c as u64) - 48;
        proof {
            let next = digits.take(i - start + 1);
            assert(next.drop_last() =~= digits.take(i - start));
            numeral_value_grows(digits, i - start + 1);
        }
        acc = acc * 10 + d;
        if acc > 0xffff_ffff {
            return None;
        }
        i += 1;
    }
    assert(digits.take(i - start) =~= digits);
    Some(acc as u32)
}

/// `n` zeros.
pub open spec fn zeros(n: nat) -> Seq<char> {
    Seq::new(n, |i: int| '0')
}

/// Whether a text spells the number `n`: its decimal numeral, perhaps with zeros before it, and
/// perhaps with a plus sign before that.
pub open spec fn spells(s: Seq<char>, n: nat) -> bool {
    exists|k: nat| s == #[trigger] zeros(k) + decimal(n) || s == seq!['+'] + (zeros(k) + decimal(n))
}

proof fn decimal_value(n: nat)
    ensures
        numeral_value(decimal(n)) == n,
        decimal(n).len() > 0,
    decreases n,
{
    if n < 10 {
        let one = decimal(n);
        assert(one.drop_last() =~= Seq::<char>::empty());
        assert(numeral_value(one.drop_last()) == 0);
        assert(one.last() == digit(n));
    } else {
        decimal_value(n / 10);
        let init = decimal(n / 10);
        assert(decimal(n).drop_last() =~= init);
        assert(decimal(n).last() == digit(n % 10));
    }
}

proof fn zeros_value(k: nat, s: Seq<char>)
    ensures
        numeral_value(zeros(k) + s) == numeral_value(s),
    decreases k + s.len(),
{
    let whole = zeros(k) + s;
    if s.len() > 0 {
        assert(whole.drop_last() =~= zeros(k) + s.drop_last());
        zeros_value(k, s.drop_last());
    } else if k > 0 {
        assert(whole =~= zeros(k));
        assert(whole.drop_last() =~= zeros((k - 1) as nat) + s);
        zeros_value((k - 1) as nat, s);
        assert(whole.last() == '0');
    } else {
        assert(whole =~= s);
    }
}

/// A run of digits is the numeral of its value, perhaps with zeros before it.
proof fn digits_spell(s: Seq<char>) -> (k: nat)
    requires
        s.len() > 0,
        forall|i: int| 0 <= i < s.len() ==> #[trigger] is_digit(s[i]),
    ensures
        s == zeros(k) + decimal(numeral_value(s)),
    decreases s.len(),
{
    let init = s.drop_last();
    let c = s.last();
    let d = (c as nat - 48) as nat;
    assert(is_digit(s[s.len() - 1]));
    assert(digit(d) == c);
    let u = numeral_value(init);
    if init.len() == 0 {
        assert(u == 0);
        assert(s =~= zeros(0) + decimal(d));
        0
    } else {
        assert forall|i: int| 0 <= i < init.len() implies #[trigger] is_digit(init[i]) by {
            assert(is_digit(s[i]));
        }
        let k = digits_spell(init);
        let v = numeral_value(s);
        assert(v == 10 * u + d);
        assert(s =~= init.push(c));
        if u == 0 {
            assert(decimal(0) =~= seq!['0']);
            assert(init =~= zeros(k + 1));
            assert(s =~= zeros(k + 1) + decimal(v));
            k + 1
        } else {
            assert(v / 10 == u && v % 10 == d);
            assert(decimal(v) =~= decimal(u).push(c));
            assert(s =~= zeros(k) + decimal(v));
            k
        }
    }
}

/// Reading numbers: a text is read as `n` exactly if it spells `n`, for every 32-bit number, and as
/// none exactly if it spells none of them.
pub proof fn numbers_are_read_as_spelled(s: Seq<char>)
    ensures
        forall|n: u32| number(s) == Some(n) <==> #[trigger] spells(s, n as nat),
        number(s) is None <==> (forall|n: u32| !#[trigger] spells(s, n as nat)),
{
    let rest = after_plus(s);
    if let Some(n) = number(s) {
        let k = digits_spell(rest);
        assert(rest == zeros(k) + decimal(n as nat));
        if s.len() > 0 && s[0] == '+' {
            assert(s =~= seq!['+'] + rest);
        }
        assert(spells(s, n as nat));
    }
    assert forall|n: u32| #[trigger] spells(s, n as nat) implies number(s) == Some(n) by {
        let k = choose|k: nat|
            s == #[trigger] zeros(k) + decimal(n as nat) || s == seq!['+'] + (zeros(k) + decimal(
                n as nat,
            ));
        let body = zeros(k) + decimal(n as nat);
        decimal_value(n as nat);
        decimal_digits(n as nat);
        zeros_value(k, decimal(n as nat));
        assert forall|i: int| 0 <= i < body.len() implies #[trigger] is_digit(body[i]) by {
            if i >= k {
                assert(body[i] == decimal(n as nat)[i - k]);
            }
        }
        assert(is_digit(body[0]));
        if s == body {
            assert(after_plus(s) == body);
        } else {
            assert(s[0] == '+');
            assert(s.skip(1) =~= body);
        }
    }
}

} // verus!
