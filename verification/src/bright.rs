use vstd::prelude::*;
use vstd::string::StrSliceExecFns;

verus! {

broadcast use vstd::string::group_string_axioms;

/// How the brightness value given on the command line is applied.
#[derive(Debug, Clone, Copy, PartialEq, Eq, Structural)]
pub enum BrightKind {
    /// `+value`: add this percentage of the maximum.
    Increment,
    /// `-value`: take this percentage of the maximum away.
    Decrement,
    /// `value`: set to this percentage of the maximum.
    SetTo,
}

/// What one command-line argument of the brightness tool means.
pub enum ArgStep {
    /// `-h` or `--help`: print the usage and stop.
    Help,
    /// The brightness value: `text` is still to be read as a number.
    Value { kind: BrightKind, text: String },
    /// The name of the backlight device, now kept by the parser.
    Name,
    /// An argument after the value and the name.
    Unexpected(String),
}

/// Why the command line of the brightness tool was refused.
#[derive(Debug, Clone, Copy, PartialEq, Eq, Structural)]
pub enum ArgsError {
    /// No brightness value was given.
    NoBright,
}

/// Reads the arguments of the brightness tool one by one: the value first,
/// then an optional device name.
pub struct ArgParser {
    has_value: bool,
    name: Option<String>,
}

/// Whether an argument asks for help.
pub open spec fn is_help(arg: Seq<char>) -> bool {
    arg == "-h"@ || arg == "--help"@
}

/// The kind of a brightness value and the number text that follows its sign.
pub open spec fn value_parts(arg: Seq<char>) -> (BrightKind, Seq<char>) {
    if arg.len() > 0 && arg[0] == '+' {
        (BrightKind::Increment, arg.drop_first())
    } else if arg.len() > 0 && arg[0] == '-' {
        (BrightKind::Decrement, arg.drop_first())
    } else {
        (BrightKind::SetTo, arg)
    }
}

impl ArgParser {
    /// A value was read.
    pub closed spec fn has_value(&self) -> bool {
        self.has_value
    }

    /// The device name read so far.
    pub closed spec fn device(&self) -> Option<Seq<char>> {
        match self.name {
            Some(n) => Some(n@),
            None => None,
        }
    }

    /// A parser that has read nothing yet.
    pub fn new() -> (res: Self)
        ensures
            !res.has_value(),
            res.device() is None,
    {
        ArgParser { has_value: false, name: None }
    }

    /// Reads the next argument: help, else the value if none was read yet,
    /// else the device name if none was read yet, else an unexpected one.
    pub fn next_arg(&mut self, arg: String) -> (res: ArgStep)
        ensures
            is_help(arg@) ==> res is Help && final(self).has_value() == old(self).has_value()
                && final(self).device() == old(self).device(),
            !is_help(arg@) && !old(self).has_value() ==> {
                &&& res matches ArgStep::Value { kind, text } && kind == value_parts(arg@).0
                    && text@ == value_parts(arg@).1
                &&& final(self).has_value()
                &&& final(self).device() == old(self).device()
            },
            !is_help(arg@) && old(self).has_value() && old(self).device() is None ==> {
                &&& res is Name
                &&& final(self).has_value()
                &&& final(self).device() == Some(arg@)
            },
            !is_help(arg@) && old(self).has_value() && old(self).device() is Some ==> {
                &&& res matches ArgStep::Unexpected(a) && a@ == arg@
                &&& final(self).has_value()
                &&& final(self).device() == old(self).device()
            },
    {
        let help = arg == "-h".to_owned() || arg == "--help".to_owned();
        if help {
            return ArgStep::Help;
        }
        if !self.has_value {
            self.has_value = true;
            let n = arg.as_str().unicode_len();
            if n > 0 && arg.as_str().get_char(0) == '+' {
                let text = arg.as_str().substring_char(1, n).to_owned();
                assert(text@ =~= arg@.drop_first());
                ArgStep::Value { kind: BrightKind::Increment, text }
            } else if n > 0 && arg.as_str().get_char(0) == '-' {
                let text = arg.as_str().substring_char(1, n).to_owned();
                assert(text@ =~= arg@.drop_first());
                ArgStep::Value { kind: BrightKind::Decrement, text }
            } else {
                ArgStep::Value { kind: BrightKind::SetTo, text: arg }
            }
        } else if self.name.is_none() {
            self.name = Some(arg);
            ArgStep::Name
        } else {
            ArgStep::Unexpected(arg)
        }
    }

    /// The device name once every argument was read, or `NoBright` when no
    /// value was given.
    pub fn finish(self) -> (res: Result<Option<String>, ArgsError>)
        ensures
            !self.has_value() ==> res == Err::<Option<String>, ArgsError>(ArgsError::NoBright),
            self.has_value() ==> (res matches Ok(n) && match (n, self.device()) {
                (Some(a), Some(b)) => a@ == b,
                (None, None) => true,
                _ => false,
            }),
    {
        if !self.has_value {
            Err(ArgsError::NoBright)
        } else {
            Ok(self.name)
        }
    }
}

/// The new brightness level: `target` kept between zero and `total`.
pub open spec fn clamped(target: int, total: int) -> int {
    let capped = if target < total { target } else { total };
    if capped > 0 { capped } else { 0 }
}

/// The brightness level to write: `target` capped at `total`, then raised
/// to zero if negative.
pub fn clamp_brightness(target: i64, total: i64) -> (res: i64)
    ensures
        res == clamped(target as int, total as int),
        total >= 0 ==> 0 <= res <= total,
        0 <= target <= total ==> res == target,
        total >= 0 && target > total ==> res == total,
        target < 0 <= total ==> res == 0,
{
    let capped = if target < total { target } else { total };
    if capped > 0 { capped } else { 0 }
}

/// The characters with the Unicode `White_Space` property, which
/// `str::trim` removes.
pub open spec fn is_white_space(c: char) -> bool {
    let u = c as u32;
    ||| 0x9 <= u <= 0xD
    ||| u == 0x20
    ||| u == 0x85
    ||| u == 0xA0
    ||| u == 0x1680
    ||| 0x2000 <= u <= 0x200A
    ||| u == 0x2028
    ||| u == 0x2029
    ||| u == 0x202F
    ||| u == 0x205F
    ||| u == 0x3000
}

/// The value of a string of decimal digits.
pub open spec fn digits_value(s: Seq<char>) -> int
    decreases s.len(),
{
    if s.len() == 0 {
        0
    } else {
        digits_value(s.drop_last()) * 10 + (s.last() as u32 - '0' as u32)
    }
}

pub open spec fn is_digit(c: char) -> bool {
    '0' <= c <= '9'
}

/// Length of the sign in front of a decimal text (zero or one).
pub open spec fn sign_len(s: Seq<char>) -> int {
    if s.len() > 0 && (s[0] == '+' || s[0] == '-') { 1 } else { 0 }
}

/// The integer that a decimal text stands for: an optional sign and at least
/// one digit, as `i64`'s `FromStr` reads it.
pub open spec fn decimal_value(s: Seq<char>) -> Option<int> {
    let digits = s.skip(sign_len(s));
    if digits.len() > 0 && forall|i: int| 0 <= i < digits.len() ==> is_digit(#[trigger] digits[i]) {
        Some(if sign_len(s) == 1 && s[0] == '-' { -digits_value(digits) } else { digits_value(digits) })
    } else {
        None
    }
}

/// `s` without its leading white space.
pub open spec fn trim_start(s: Seq<char>) -> Seq<char>
    decreases s.len(),
{
    if s.len() > 0 && is_white_space(s[0]) {
        trim_start(s.drop_first())
    } else {
        s
    }
}

/// `s` without its trailing white space.
pub open spec fn trim_end(s: Seq<char>) -> Seq<char>
    decreases s.len(),
{
    if s.len() > 0 && is_white_space(s.last()) {
        trim_end(s.drop_last())
    } else {
        s
    }
}

/// `s` without leading and trailing white space, as `str::trim` gives it.
pub open spec fn trimmed(s: Seq<char>) -> Seq<char> {
    trim_end(trim_start(s))
}

/// What reading `s` as an `i64` gives: its decimal value when that fits.
pub open spec fn level_of(s: Seq<char>) -> Option<i64> {
    match decimal_value(s) {
        Some(v) => if i64::MIN <= v <= i64::MAX {
            Some(v as i64)
        } else {
            None
        },
        None => None,
    }
}

/// The brightness level written in a sysfs file: its text without
/// surrounding white space, read as an `i64`; `None` when that is not a
/// decimal integer or does not fit.
pub fn parse_level(text: &str) -> (res: Option<i64>)
    ensures
        res == level_of(trimmed(text@)),
{
    let chars = crate::text::chars_of(text);
    let (a, b) = trim_bounds(chars.as_slice());
    let core = vstd::slice::slice_subrange(chars.as_slice(), a, b);
    parse_decimal(core)
}

/// Where the text of `s` without surrounding white space begins and ends.
fn trim_bounds(s: &[char]) -> (res: (usize, usize))
    ensures
        res.0 <= res.1 <= s@.len(),
        s@.subrange(res.0 as int, res.1 as int) == trimmed(s@),
{
    let n = s.len();
    let mut a: usize = 0;
    assert(s@.skip(0) =~= s@);
    while a < n && is_space(s[a])
        invariant
            a <= n == s@.len(),
            trim_start(s@) == trim_start(s@.skip(a as int)),
        decreases n - a,
    {
        assert(s@.skip(a as int).drop_first() =~= s@.skip(a + 1));
        a += 1;
    }
    let ghost u = s@.skip(a as int);
    assert(trim_start(s@) == u);
    let mut b: usize = n;
    assert(u.take(n - a) =~= u);
    while b > a && is_space(s[b - 1])
        invariant
            a <= b <= n == s@.len(),
            u == s@.skip(a as int),
            trim_end(u) == trim_end(u.take(b - a)),
        decreases b - a,
    {
        assert(u.take(b - a).drop_last() =~= u.take(b - a - 1));
        b -= 1;
    }
    assert(u.take(b - a) =~= s@.subrange(a as int, b as int));
    (a, b)
}

/// Reads `s` as an `i64`, as its `FromStr` does (see `level_of`).
fn parse_decimal(s: &[char]) -> (res: Option<i64>)
    ensures
        res == level_of(s@),
{
    let b = s.len();
    let mut i: usize = 0;
    let mut negative = false;
    if i < b && (s[i] == '+' || s[i] == '-') {
        negative = s[i] == '-';
        i += 1;
    }
    let start = i;
    assert(start == sign_len(s@));
    let ghost digits = s@.skip(start as int);
    if i == b {
        return None;
    }
    let limit: u128 = 0x8000_0000_0000_0000;
    let mut magnitude: u128 = 0;
    assert(digits.take(0) =~= Seq::<char>::empty());
    while i < b
        invariant
            start <= i <= b == s@.len(),
            start < b,
            start == sign_len(s@),
            digits == s@.skip(start as int),
            limit == 0x8000_0000_0000_0000u128,
            forall|k: int| 0 <= k < i - start ==> is_digit(#[trigger] digits[k]),
            magnitude == digits_value(digits.take(i - start)),
            magnitude <= limit,
        decreases b - i,
    {
        let c = s[i];
        if !('0' <= c && c <= '9') {
            proof {
                assert(!is_digit(digits[i - start]));
                assert(!(forall|k: int| 0 <= k < digits.len() ==> is_digit(#[trigger] digits[k])));
                assert(decimal_value(s@) is None);
            }
            return None;
        }
        proof {
            assert(digits[i - start] == c);
            assert(digits.take(i - start + 1).drop_last() =~= digits.take(i - start));
        }
        magnitude = magnitude * 10 + (c as u32 - '0' as u32) as u128;
        i += 1;
        if magnitude > limit {
            proof {
                lemma_prefix_bounds(digits, i - start);
                if forall|k: int| 0 <= k < digits.len() ==> is_digit(#[trigger] digits[k]) {
                    assert(digits_value(digits) > 0x8000_0000_0000_0000);
                    assert(decimal_value(s@) matches Some(v) && (v > i64::MAX || v < i64::MIN));
                } else {
                    assert(decimal_value(s@) is None);
                }
            }
            return None;
        }
    }
    proof {
        assert(digits.take(b - start) =~= digits);
    }
    if negative {
        Some((0 - magnitude as i128) as i64)
    } else if magnitude < limit {
        Some(magnitude as i64)
    } else {
        None
    }
}

/// Whether `c` has the Unicode `White_Space` property.
fn is_space(c: char) -> (res: bool)
    ensures
        res == is_white_space(c),
{
    let u = c as u32;
    (0x9 <= u && u <= 0xD) || u == 0x20 || u == 0x85 || u == 0xA0 || u == 0x1680 || (0x2000 <= u
        && u <= 0x200A) || u == 0x2028 || u == 0x2029 || u == 0x202F || u == 0x205F || u == 0x3000
}

/// A string of digits is worth at least any of its prefixes.
proof fn lemma_prefix_bounds(s: Seq<char>, k: int)
    requires
        0 <= k <= s.len(),
        forall|j: int| 0 <= j < k ==> is_digit(#[trigger] s[j]),
    ensures
        (forall|j: int| 0 <= j < s.len() ==> is_digit(#[trigger] s[j])) ==> digits_value(s.take(k))
            <= digits_value(s),
    decreases s.len() - k,
{
    if k < s.len() && (forall|j: int| 0 <= j < s.len() ==> is_digit(#[trigger] s[j])) {
        lemma_prefix_bounds(s, k + 1);
        assert(s.take(k + 1).drop_last() =~= s.take(k));
        lemma_digits_nonneg(s.take(k));
        assert(is_digit(s[k]));
    } else if k == s.len() {
        assert(s.take(k) =~= s);
    }
}

proof fn lemma_digits_nonneg(s: Seq<char>)
    requires
        forall|k: int| 0 <= k < s.len() ==> is_digit(#[trigger] s[k]),
    ensures
        digits_value(s) >= 0,
    decreases s.len(),
{
    if s.len() > 0 {
        assert forall|k: int| 0 <= k < s.drop_last().len() implies is_digit(#[trigger] s.drop_last()[k]) by {
            assert(s.drop_last()[k] == s[k]);
        }
        lemma_digits_nonneg(s.drop_last());
    }
}

/// Clamping keeps a level inside `0..=total`: a target above the maximum
/// gives the maximum, a negative target gives zero, and a target in between
/// is kept as it is.
pub proof fn lemma_clamped_bounds(target: int, total: int)
    ensures
        total >= 0 ==> 0 <= clamped(target, total) <= total,
        total >= 0 && target > total ==> clamped(target, total) == total,
        target < 0 <= total ==> clamped(target, total) == 0,
        0 <= target <= total ==> clamped(target, total) == target,
{
}

/// Every character of `w` is white space.
pub open spec fn all_white_space(w: Seq<char>) -> bool {
    forall|i: int| 0 <= i < w.len() ==> is_white_space(#[trigger] w[i])
}

/// White space in front of a text is dropped by `trim_start`.
proof fn lemma_trim_start_skips(w: Seq<char>, x: Seq<char>)
    requires
        all_white_space(w),
    ensures
        trim_start(w + x) == trim_start(x),
    decreases w.len(),
{
    if w.len() > 0 {
        assert((w + x)[0] == w[0]);
        assert((w + x).drop_first() =~= w.drop_first() + x);
        assert(all_white_space(w.drop_first())) by {
            assert forall|i: int| 0 <= i < w.drop_first().len() implies is_white_space(
                #[trigger] w.drop_first()[i],
            ) by {
                assert(w.drop_first()[i] == w[i + 1]);
            }
        }
        lemma_trim_start_skips(w.drop_first(), x);
    } else {
        assert(w + x =~= x);
    }
}

/// White space after a text is dropped by `trim_end`.
proof fn lemma_trim_end_skips(x: Seq<char>, w: Seq<char>)
    requires
        all_white_space(w),
    ensures
        trim_end(x + w) == trim_end(x),
    decreases w.len(),
{
    if w.len() > 0 {
        assert((x + w).last() == w.last());
        assert(is_white_space(w[w.len() - 1]));
        assert((x + w).drop_last() =~= x + w.drop_last());
        assert(all_white_space(w.drop_last())) by {
            assert forall|i: int| 0 <= i < w.drop_last().len() implies is_white_space(
                #[trigger] w.drop_last()[i],
            ) by {
                assert(w.drop_last()[i] == w[i]);
            }
        }
        lemma_trim_end_skips(x, w.drop_last());
    } else {
        assert(x + w =~= x);
    }
}

/// `trim_start` of a text followed by more goes through the text first.
proof fn lemma_trim_start_append(s: Seq<char>, w: Seq<char>)
    ensures
        trim_start(s + w) == trim_start(trim_start(s) + w),
    decreases s.len(),
{
    if s.len() > 0 && is_white_space(s[0]) {
        assert((s + w)[0] == s[0]);
        assert((s + w).drop_first() =~= s.drop_first() + w);
        lemma_trim_start_append(s.drop_first(), w);
    } else if s.len() == 0 {
        assert(s + w =~= w);
    }
}

/// What `trim_start` leaves does not start with white space.
proof fn lemma_trim_start_first(s: Seq<char>)
    ensures
        trim_start(s).len() > 0 ==> !is_white_space(trim_start(s)[0]),
    decreases s.len(),
{
    if s.len() > 0 && is_white_space(s[0]) {
        lemma_trim_start_first(s.drop_first());
    }
}

/// White space around a text does not change what `str::trim` leaves, so it
/// does not change the level read from it.
pub proof fn lemma_trim_ignores_white_space(w1: Seq<char>, s: Seq<char>, w2: Seq<char>)
    requires
        all_white_space(w1),
        all_white_space(w2),
    ensures
        trimmed(w1 + s + w2) == trimmed(s),
        level_of(trimmed(w1 + s + w2)) == level_of(trimmed(s)),
{
    assert(w1 + s + w2 =~= w1 + (s + w2));
    lemma_trim_start_skips(w1, s + w2);
    lemma_trim_start_append(s, w2);
    let t = trim_start(s);
    lemma_trim_start_first(s);
    if t.len() > 0 {
        assert((t + w2)[0] == t[0]);
        assert(trim_start(t + w2) == t + w2);
        lemma_trim_end_skips(t, w2);
    } else {
        assert(t + w2 =~= w2 + Seq::<char>::empty());
        lemma_trim_start_skips(w2, Seq::<char>::empty());
        assert(trim_start(Seq::<char>::empty()) == Seq::<char>::empty());
        assert(trim_end(Seq::<char>::empty()) == Seq::<char>::empty());
    }
}

/// A `0` in front of digits does not change their value.
pub proof fn lemma_leading_zero(d: Seq<char>)
    ensures
        digits_value(seq!['0'] + d) == digits_value(d),
    decreases d.len(),
{
    if d.len() == 0 {
        assert(seq!['0'] + d =~= seq!['0']);
        assert(seq!['0'].drop_last() =~= Seq::<char>::empty());
        assert(seq!['0'].last() == '0');
        assert(digits_value(Seq::<char>::empty()) == 0);
        assert(digits_value(seq!['0']) == 0);
    } else {
        lemma_leading_zero(d.drop_last());
        assert((seq!['0'] + d).drop_last() =~= seq!['0'] + d.drop_last());
        assert((seq!['0'] + d).last() == d.last());
    }
}

/// Digits read as themselves, after `+` as themselves, and after `-` as
/// their negation.
pub proof fn lemma_decimal_sign(d: Seq<char>)
    requires
        d.len() > 0,
        forall|i: int| 0 <= i < d.len() ==> is_digit(#[trigger] d[i]),
    ensures
        decimal_value(d) == Some(digits_value(d)),
        decimal_value(seq!['+'] + d) == Some(digits_value(d)),
        decimal_value(seq!['-'] + d) == Some(-digits_value(d)),
{
    assert(is_digit(d[0]));
    assert(d.skip(0) =~= d);
    assert((seq!['+'] + d).skip(1) =~= d);
    assert((seq!['-'] + d).skip(1) =~= d);
    assert((seq!['+'] + d)[0] == '+');
    assert((seq!['-'] + d)[0] == '-');
}

} // verus!
