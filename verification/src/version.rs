//! Dotted-decimal version numbers with trailing-zero normalization.
//!
//! A version is a sequence of non-negative 32-bit integers, e.g. `[2, 17]`
//! for the text `2.17`. Trailing zero components are insignificant and are
//! stripped at construction, so `1.2.0` and `1.2` denote the same value.

use core::cmp::Ordering;
use vstd::prelude::*;
use vstd::string::StrSliceExecFns;
use vstd::string::StringExecFns;

verus! {

/// Why a version or namespaced-version text was rejected.
#[derive(Clone, Copy, Debug, PartialEq, Eq, Structural)]
pub enum ParseError {
    /// A dotted component is empty, non-numeric, or exceeds the 32-bit range.
    InvalidVersion,
    /// A namespaced version holds no `_` separator.
    MissingSeparator,
    /// The text before the last `_` is empty.
    EmptyNamespace,
    /// The text after the last `_` does not start with an ASCII digit.
    InvalidFormat,
}

/// The display text of each parse error.
pub open spec fn parse_error_text(e: ParseError) -> Seq<char> {
    match e {
        ParseError::InvalidVersion => "Invalid version"@,
        ParseError::MissingSeparator => "Invalid namespaced version: no separator"@,
        ParseError::EmptyNamespace => "Missing namespace in namespaced version"@,
        ParseError::InvalidFormat => "Invalid namespaced version"@,
    }
}

impl ParseError {
    /// A human-readable cause for the rejection.
    pub fn message(&self) -> (r: String)
        ensures
            r@ == parse_error_text(*self),
    {
        match self {
            ParseError::InvalidVersion => String::from_str("Invalid version"),
            ParseError::MissingSeparator => String::from_str(
                "Invalid namespaced version: no separator",
            ),
            ParseError::EmptyNamespace => String::from_str(
                "Missing namespace in namespaced version",
            ),
            ParseError::InvalidFormat => String::from_str("Invalid namespaced version"),
        }
    }
}

pub open spec fn is_digit(c: char) -> bool {
    48 <= c as u32 <= 57
}

pub open spec fn digit_val(c: char) -> nat {
    if is_digit(c) {
        (c as u32 - 48) as nat
    } else {
        0
    }
}

pub open spec fn all_digits(s: Seq<char>) -> bool {
    forall|i: int| 0 <= i < s.len() ==> is_digit(#[trigger] s[i])
}

/// The numeric value of a digit sequence, most significant digit first.
pub open spec fn digits_val(s: Seq<char>) -> nat
    decreases s.len(),
{
    if s.len() == 0 {
        0
    } else {
        digits_val(s.drop_last()) * 10 + digit_val(s.last())
    }
}

/// A well-formed dotted component: non-empty, all digits, within `u32`.
pub open spec fn is_component(s: Seq<char>) -> bool {
    s.len() > 0 && all_digits(s) && digits_val(s) <= u32::MAX
}

pub open spec fn component_val(s: Seq<char>) -> u32 {
    digits_val(s) as u32
}

/// The position of the first `.` at or after `i`, or the text's length.
pub open spec fn next_dot(s: Seq<char>, i: int) -> int
    decreases s.len() - i,
    when 0 <= i <= s.len()
{
    if i == s.len() {
        i
    } else if s[i] == '.' {
        i
    } else {
        next_dot(s, i + 1)
    }
}

pub proof fn lemma_next_dot(s: Seq<char>, i: int)
    requires
        0 <= i <= s.len(),
    ensures
        i <= next_dot(s, i) <= s.len(),
        next_dot(s, i) == s.len() || s[next_dot(s, i)] == '.',
        forall|j: int| i <= j < next_dot(s, i) ==> s[j] != '.',
    decreases s.len() - i,
{
    if i < s.len() && s[i] != '.' {
        lemma_next_dot(s, i + 1);
    }
}

/// The components of `s` from position `i` on, split on `.`.
pub open spec fn dot_components(s: Seq<char>, i: int) -> Seq<Seq<char>>
    decreases s.len() - i,
    when 0 <= i <= s.len()
    via dot_components_dec
{
    let e = next_dot(s, i);
    if e == s.len() {
        seq![s.subrange(i, e)]
    } else {
        seq![s.subrange(i, e)] + dot_components(s, e + 1)
    }
}

#[via_fn]
proof fn dot_components_dec(s: Seq<char>, i: int) {
    lemma_next_dot(s, i);
}

/// Every dotted component of the whole text is well formed.
pub open spec fn version_text_valid(s: Seq<char>) -> bool {
    forall|j: int|
        0 <= j < dot_components(s, 0).len() ==> is_component(#[trigger] dot_components(s, 0)[j])
}

/// Strips trailing zero components.
pub open spec fn norm(v: Seq<u32>) -> Seq<u32>
    decreases v.len(),
{
    if v.len() == 0 {
        v
    } else if v.last() == 0 {
        norm(v.drop_last())
    } else {
        v
    }
}

pub open spec fn normalized(v: Seq<u32>) -> bool {
    v.len() == 0 || v.last() != 0
}

/// The value a valid version text denotes, after normalization.
pub open spec fn spec_version_values(s: Seq<char>) -> Seq<u32> {
    norm(dot_components(s, 0).map_values(|c: Seq<char>| component_val(c)))
}

pub open spec fn head0(v: Seq<u32>) -> u32 {
    if v.len() == 0 {
        0
    } else {
        v[0]
    }
}

pub open spec fn tail0(v: Seq<u32>) -> Seq<u32> {
    if v.len() == 0 {
        v
    } else {
        v.drop_first()
    }
}

/// Compares two versions componentwise, the shorter padded with zeros.
pub open spec fn version_cmp(a: Seq<u32>, b: Seq<u32>) -> Ordering
    decreases a.len() + b.len(),
{
    if a.len() == 0 && b.len() == 0 {
        Ordering::Equal
    } else if head0(a) < head0(b) {
        Ordering::Less
    } else if head0(a) > head0(b) {
        Ordering::Greater
    } else {
        version_cmp(tail0(a), tail0(b))
    }
}

pub open spec fn version_lt(a: Seq<u32>, b: Seq<u32>) -> bool {
    version_cmp(a, b) == Ordering::Less
}

/// The suffix of `s` from `i` on; empty when `i` runs past the end.
spec fn skip_to(s: Seq<u32>, i: int) -> Seq<u32> {
    if i <= s.len() {
        s.skip(i)
    } else {
        Seq::empty()
    }
}

/// Compares two component vectors, the shorter padded with zeros.
pub fn cmp_values(a: &Vec<u32>, b: &Vec<u32>) -> (r: Ordering)
    ensures
        r == version_cmp(a@, b@),
{
    let mut i: usize = 0;
    proof {
        assert(skip_to(a@, 0) =~= a@);
        assert(skip_to(b@, 0) =~= b@);
    }
    loop
        invariant
            version_cmp(a@, b@) == version_cmp(skip_to(a@, i as int), skip_to(b@, i as int)),
        ensures
            i >= a.len() && i >= b.len(),
            version_cmp(a@, b@) == version_cmp(skip_to(a@, i as int), skip_to(b@, i as int)),
        decreases a@.len() + b@.len() - i,
    {
        if !(i < a.len() || i < b.len()) {
            break ;
        }
        let x = if i < a.len() {
            a[i]
        } else {
            0
        };
        let y = if i < b.len() {
            b[i]
        } else {
            0
        };
        if x < y {
            return Ordering::Less;
        }
        if x > y {
            return Ordering::Greater;
        }
        proof {
            assert(tail0(skip_to(a@, i as int)) =~= skip_to(a@, i + 1 as int));
            assert(tail0(skip_to(b@, i as int)) =~= skip_to(b@, i + 1 as int));
        }
        i = i + 1;
    }
    proof {
        assert(skip_to(a@, i as int) =~= Seq::<u32>::empty());
        assert(skip_to(b@, i as int) =~= Seq::<u32>::empty());
    }
    Ordering::Equal
}

/// A version compares equal to itself.
pub proof fn lemma_version_cmp_self(a: Seq<u32>)
    ensures
        version_cmp(a, a) == Ordering::Equal,
    decreases a.len(),
{
    if a.len() > 0 {
        lemma_version_cmp_self(tail0(a));
    }
}

/// Swapping the operands reverses the outcome of the comparison.
pub proof fn lemma_version_cmp_flip(a: Seq<u32>, b: Seq<u32>)
    ensures
        version_cmp(a, b) == Ordering::Less <==> version_cmp(b, a) == Ordering::Greater,
        version_cmp(a, b) == Ordering::Equal <==> version_cmp(b, a) == Ordering::Equal,
    decreases a.len() + b.len(),
{
    if !(a.len() == 0 && b.len() == 0) {
        if head0(a) == head0(b) {
            lemma_version_cmp_flip(tail0(a), tail0(b));
        }
    }
}

/// Dropping the leading component preserves normalization.
proof fn lemma_tail0_normalized(a: Seq<u32>)
    requires
        normalized(a),
    ensures
        normalized(tail0(a)),
{
    if a.len() > 1 {
        assert(tail0(a).last() == a.last());
    }
}

/// Two normalized versions that compare equal are the same sequence.
pub proof fn lemma_version_cmp_equal(a: Seq<u32>, b: Seq<u32>)
    requires
        normalized(a),
        normalized(b),
        version_cmp(a, b) == Ordering::Equal,
    ensures
        a == b,
    decreases a.len() + b.len(),
{
    if a.len() == 0 && b.len() == 0 {
    } else {
        lemma_tail0_normalized(a);
        lemma_tail0_normalized(b);
        lemma_version_cmp_equal(tail0(a), tail0(b));
        if a.len() == 0 {
            assert(b =~= seq![b[0]]);
            assert(false);
        } else if b.len() == 0 {
            assert(a =~= seq![a[0]]);
            assert(false);
        } else {
            assert(a =~= seq![a[0]] + a.drop_first());
            assert(b =~= seq![b[0]] + b.drop_first());
        }
    }
}

/// The strict version order is transitive.
pub proof fn lemma_version_lt_transitive(a: Seq<u32>, b: Seq<u32>, c: Seq<u32>)
    requires
        version_lt(a, b),
        version_lt(b, c),
    ensures
        version_lt(a, c),
    decreases a.len() + b.len() + c.len(),
{
    if head0(a) == head0(b) && head0(b) == head0(c) {
        lemma_version_lt_transitive(tail0(a), tail0(b), tail0(c));
    }
}

/// On normalized versions the strict order is a trichotomy: exactly one of
/// `a < b`, `a == b`, `b < a` holds.
pub proof fn lemma_version_order_trichotomy(a: Seq<u32>, b: Seq<u32>)
    requires
        normalized(a),
        normalized(b),
    ensures
        version_lt(a, b) || version_lt(b, a) || a == b,
        version_lt(a, b) ==> !version_lt(b, a) && a != b,
        version_lt(b, a) ==> !version_lt(a, b) && b != a,
        a == b ==> !version_lt(a, b) && !version_lt(b, a),
{
    lemma_version_cmp_flip(a, b);
    lemma_version_cmp_self(a);
    if version_cmp(a, b) == Ordering::Equal {
        lemma_version_cmp_equal(a, b);
    }
}

/// Version number: a series of one or more non-negative integers separated
/// by periods, held with trailing zeros stripped.
#[derive(Debug)]
pub struct Version {
    pub values: Vec<u32>,
}

impl View for Version {
    type V = Seq<u32>;

    open spec fn view(&self) -> Seq<u32> {
        self.values@
    }
}

impl Version {
    /// No trailing zero component remains after construction.
    pub open spec fn wf(&self) -> bool {
        normalized(self@)
    }

    /// Parses a dotted-decimal version text, stripping trailing zeros.
    pub fn parse(text: &str) -> (r: Result<Version, ParseError>)
        ensures
            match r {
                Ok(v) => version_text_valid(text@) && v@ == spec_version_values(text@) && v.wf(),
                Err(e) => !version_text_valid(text@) && e == ParseError::InvalidVersion,
            },
    {
        let chars = chars_of(text);
        let ghost s = text@;
        let n = chars.len();
        let mut vals: Vec<u32> = Vec::new();
        let ghost mut done: Seq<Seq<char>> = Seq::empty();
        let mut start: usize = 0;
        loop
            invariant_except_break
                dot_components(s, 0) =~= done + dot_components(s, start as int),
            invariant
                s == text@,
                chars@ == s,
                n == s.len(),
                start <= n,
                vals@.len() == done.len(),
                forall|j: int|
                    0 <= j < done.len() ==> is_component(#[trigger] done[j]) && vals@[j]
                        == component_val(done[j]),
            ensures
                dot_components(s, 0) =~= done,
            decreases n + 1 - start,
        {
            let mut end: usize = start;
            while end < n && chars[end] != '.'
                invariant
                    chars@ == s,
                    n == s.len(),
                    start <= end <= n,
                    forall|j: int| start <= j < end ==> s[j] != '.',
                decreases n - end,
            {
                end = end + 1;
            }
            proof {
                lemma_next_dot_at(s, start as int, end as int);
            }
            match parse_component(&chars, start, end) {
                Option::Some(v) => {
                    vals.push(v);
                    proof {
                        done = done + seq![s.subrange(start as int, end as int)];
                    }
                },
                Option::None => {
                    proof {
                        assert(dot_components(s, start as int).len() >= 1);
                        assert(dot_components(s, start as int)[0] == s.subrange(
                            start as int,
                            end as int,
                        ));
                        assert(dot_components(s, 0).len() > done.len());
                        assert(dot_components(s, 0)[done.len() as int] == s.subrange(
                            start as int,
                            end as int,
                        ));
                        assert(!is_component(dot_components(s, 0)[done.len() as int]));
                        assert(!version_text_valid(s));
                    }
                    return Err(ParseError::InvalidVersion);
                },
            }
            if end == n {
                proof {
                    assert(dot_components(s, start as int) =~= seq![
                        s.subrange(start as int, end as int),
                    ]);
                }
                break ;
            }
            start = end + 1;
        }
        assert(version_text_valid(s));
        proof {
            assert(vals@ =~= dot_components(s, 0).map_values(|c: Seq<char>| component_val(c)));
        }
        let ghost parsed = vals@;
        while vals.len() > 0 && vals[vals.len() - 1] == 0
            invariant
                norm(vals@) == norm(parsed),
            decreases vals.len(),
        {
            vals.pop();
        }
        assert(vals@ == norm(parsed));
        Ok(Version { values: vals })
    }
}

/// Componentwise equality of two vectors.
fn vec_u32_eq(a: &Vec<u32>, b: &Vec<u32>) -> (r: bool)
    ensures
        r == (a@ == b@),
{
    if a.len() != b.len() {
        return false;
    }
    let mut i: usize = 0;
    while i < a.len()
        invariant
            i <= a@.len(),
            a@.len() == b@.len(),
            forall|j: int| 0 <= j < i ==> a@[j] == b@[j],
        decreases a@.len() - i,
    {
        if a[i] != b[i] {
            return false;
        }
        i = i + 1;
    }
    proof {
        assert(a@ =~= b@);
    }
    true
}

impl PartialEq for Version {
    fn eq(&self, other: &Self) -> (r: bool) {
        vec_u32_eq(&self.values, &other.values)
    }
}

impl vstd::std_specs::cmp::PartialEqSpecImpl for Version {
    open spec fn obeys_eq_spec() -> bool {
        true
    }

    open spec fn eq_spec(&self, other: &Self) -> bool {
        self@ == other@
    }
}

impl PartialOrd for Version {
    fn partial_cmp(&self, other: &Self) -> (r: Option<Ordering>) {
        Some(cmp_values(&self.values, &other.values))
    }
}

impl vstd::std_specs::cmp::PartialOrdSpecImpl for Version {
    open spec fn obeys_partial_cmp_spec() -> bool {
        true
    }

    open spec fn partial_cmp_spec(&self, other: &Self) -> Option<Ordering> {
        Some(version_cmp(self@, other@))
    }
}

impl Clone for Version {
    /// The copy holds the same components.
    fn clone(&self) -> (r: Self)
        ensures
            r@ == self@,
    {
        let mut values: Vec<u32> = Vec::new();
        let mut i: usize = 0;
        while i < self.values.len()
            invariant
                i <= self.values@.len(),
                values@ == self.values@.take(i as int),
            decreases self.values@.len() - i,
        {
            values.push(self.values[i]);
            proof {
                assert(values@ =~= self.values@.take(i + 1 as int));
            }
            i = i + 1;
        }
        proof {
            assert(values@ =~= self.values@);
        }
        Version { values }
    }
}

/// `next_dot` lands exactly where a scan that saw no earlier `.` stopped.
proof fn lemma_next_dot_at(s: Seq<char>, i: int, e: int)
    requires
        0 <= i <= e <= s.len(),
        forall|j: int| i <= j < e ==> s[j] != '.',
        e == s.len() || s[e] == '.',
    ensures
        next_dot(s, i) == e,
    decreases e - i,
{
    if i < e {
        lemma_next_dot_at(s, i + 1, e);
    }
}

/// The characters of a string as a vector, in order.
pub(crate) fn chars_of(text: &str) -> (r: Vec<char>)
    ensures
        r@ == text@,
{
    let n = text.unicode_len();
    let mut v: Vec<char> = Vec::new();
    let mut i: usize = 0;
    while i < n
        invariant
            i <= n,
            n == text@.len(),
            v@ == text@.take(i as int),
        decreases n - i,
    {
        let c = text.get_char(i);
        v.push(c);
        proof {
            assert(v@ =~= text@.take(i + 1 as int));
        }
        i = i + 1;
    }
    proof {
        assert(v@ =~= text@);
    }
    v
}

/// A digit-sequence prefix never exceeds the whole sequence's value.
proof fn lemma_digits_val_prefix(s: Seq<char>, a: int, b: int, c: int)
    requires
        0 <= a <= b <= c <= s.len(),
    ensures
        digits_val(s.subrange(a, b)) <= digits_val(s.subrange(a, c)),
    decreases c - b,
{
    if b < c {
        lemma_digits_val_prefix(s, a, b, c - 1);
        assert(s.subrange(a, c).drop_last() =~= s.subrange(a, c - 1));
    }
}

/// Parses `chars[start..end]` as a decimal `u32` component.
fn parse_component(chars: &Vec<char>, start: usize, end: usize) -> (r: Option<u32>)
    requires
        start <= end <= chars@.len(),
    ensures
        match r {
            Some(v) => is_component(chars@.subrange(start as int, end as int)) && v
                == component_val(chars@.subrange(start as int, end as int)),
            None => !is_component(chars@.subrange(start as int, end as int)),
        },
{
    let ghost comp = chars@.subrange(start as int, end as int);
    if start == end {
        return None;
    }
    let mut acc: u64 = 0;
    let mut i: usize = start;
    while i < end
        invariant
            start <= i <= end <= chars@.len(),
            comp == chars@.subrange(start as int, end as int),
            all_digits(chars@.subrange(start as int, i as int)),
            acc == digits_val(chars@.subrange(start as int, i as int)),
            acc <= u32::MAX,
        decreases end - i,
    {
        let c = chars[i];
        let u = c as u32;
        proof {
            assert(chars@.subrange(start as int, i + 1 as int).drop_last() =~= chars@.subrange(
                start as int,
                i as int,
            ));
            assert(chars@.subrange(start as int, i + 1 as int).last() == chars@[i as int]);
        }
        if u < 48 || u > 57 {
            proof {
                assert(comp[i - start] == chars@[i as int]);
                assert(!is_digit(comp[i - start]));
            }
            return None;
        }
        let d = u - 48;
        acc = acc * 10 + d as u64;
        if acc > u32::MAX as u64 {
            proof {
                lemma_digits_val_prefix(chars@, start as int, i + 1, end as int);
            }
            return None;
        }
        i = i + 1;
    }
    proof {
        assert(comp =~= chars@.subrange(start as int, i as int));
    }
    Some(acc as u32)
}

/// The character for a single decimal digit value.
pub open spec fn digit_char(d: nat) -> char {
    ((48 + d) as u8) as char
}

/// The canonical decimal digits of `n`, most significant first.
pub open spec fn dec_digits(n: nat) -> Seq<char>
    decreases n,
    via dec_digits_dec
{
    if n < 10 {
        seq![digit_char(n)]
    } else {
        dec_digits(n / 10).push(digit_char(n % 10))
    }
}

#[via_fn]
proof fn dec_digits_dec(n: nat) {
    if n >= 10 {
        vstd::arithmetic::div_mod::lemma_div_decreases(n as int, 10);
    }
}

/// The canonical text of a version: components rejoined with `.`; the empty
/// sequence renders as the empty text.
pub open spec fn render_values(v: Seq<u32>) -> Seq<char>
    decreases v.len(),
{
    if v.len() == 0 {
        Seq::empty()
    } else if v.len() == 1 {
        dec_digits(v[0] as nat)
    } else {
        render_values(v.drop_last()) + seq!['.'] + dec_digits(v.last() as nat)
    }
}

/// Relies on String::push: appends the given character to the string.
#[verifier::external_body]
fn push_char(s: &mut String, c: char)
    ensures
        final(s)@ == old(s)@.push(c),
{
    s.push(c);
}

/// The decimal text of a number is made of digits, is never empty, and
/// denotes the number itself.
proof fn lemma_dec_digits(n: nat)
    ensures
        dec_digits(n).len() > 0,
        all_digits(dec_digits(n)),
        forall|j: int| 0 <= j < dec_digits(n).len() ==> #[trigger] dec_digits(n)[j] != '.',
        digits_val(dec_digits(n)) == n,
    decreases n,
{
    if n < 10 {
        assert(is_digit(digit_char(n)));
        assert(digit_char(n) != '.');
        assert(seq![digit_char(n)].drop_last() =~= Seq::<char>::empty());
        assert(seq![digit_char(n)].last() == digit_char(n));
        assert(digits_val(Seq::<char>::empty()) == 0);
        assert(digits_val(dec_digits(n)) == digit_val(digit_char(n)));
    } else {
        lemma_dec_digits(n / 10);
        let d = dec_digits(n / 10);
        let c = digit_char(n % 10);
        assert(is_digit(c));
        assert(c != '.');
        assert(d.push(c).drop_last() =~= d);
        assert(digits_val(d.push(c)) == digits_val(d) * 10 + digit_val(c));
        assert(digits_val(d) * 10 + (n % 10) == n) by {
            vstd::arithmetic::div_mod::lemma_fundamental_div_mod(n as int, 10);
        }
    }
}

/// Appends the decimal digits of `x` to the string.
fn push_u32_text(out: &mut String, x: u32)
    ensures
        final(out)@ == old(out)@ + dec_digits(x as nat),
{
    let mut tmp: Vec<char> = Vec::new();
    let mut m: u32 = x;
    loop
        invariant_except_break
            tmp@.len() == 0 ==> m == x,
            tmp@.len() > 0 ==> m > 0,
            tmp@.len() > 0 ==> dec_digits(x as nat) =~= (if m > 0 {
                dec_digits(m as nat)
            } else {
                Seq::<char>::empty()
            }) + tmp@.reverse(),
        ensures
            dec_digits(x as nat) =~= tmp@.reverse(),
        decreases m,
    {
        let ghost old_tmp = tmp@;
        let ghost old_m = m;
        let d = m % 10;
        let c = ((48 + d) as u8) as char;
        proof {
            assert(c == digit_char((old_m % 10) as nat));
        }
        tmp.push(c);
        m = m / 10;
        proof {
            assert(tmp@.reverse() =~= seq![c] + old_tmp.reverse());
            if old_tmp.len() == 0 {
                if old_m < 10 {
                    assert(dec_digits(old_m as nat) =~= seq![c]);
                } else {
                    assert(dec_digits(old_m as nat) =~= dec_digits(m as nat) + seq![c]);
                }
            } else {
                if old_m >= 10 {
                    assert(dec_digits(old_m as nat) =~= dec_digits(m as nat) + seq![c]);
                } else {
                    assert(m == 0);
                    assert(dec_digits(old_m as nat) =~= seq![c]);
                }
            }
            assert(dec_digits(x as nat) =~= (if m > 0 {
                dec_digits(m as nat)
            } else {
                Seq::<char>::empty()
            }) + tmp@.reverse());
        }
        if m == 0 {
            break ;
        }
    }
    let ghost digits = dec_digits(x as nat);
    let ghost base = out@;
    let n = tmp.len();
    let mut k: usize = 0;
    while k < n
        invariant
            k <= n,
            n == tmp@.len(),
            digits =~= tmp@.reverse(),
            base == old(out)@,
            out@ == base + digits.take(k as int),
        decreases n - k,
    {
        let c = tmp[n - 1 - k];
        proof {
            assert(digits[k as int] == tmp@[n - 1 - k as int]);
            assert((base + digits.take(k as int)).push(c) =~= base + digits.take(k + 1 as int));
        }
        push_char(out, c);
        k = k + 1;
    }
    proof {
        assert(digits.take(n as int) =~= digits);
    }
}

impl Version {
    /// The canonical text: components rejoined with `.`; the all-zero
    /// version renders as the empty text.
    pub fn to_text(&self) -> (r: String)
        ensures
            r@ == render_values(self@),
    {
        let mut out = String::new();
        let n = self.values.len();
        let mut i: usize = 0;
        while i < n
            invariant
                i <= n,
                n == self.values@.len(),
                out@ == render_values(self.values@.take(i as int)),
            decreases n - i,
        {
            if i > 0 {
                push_char(&mut out, '.');
            }
            push_u32_text(&mut out, self.values[i]);
            proof {
                let t = self.values@.take(i + 1 as int);
                assert(t.drop_last() =~= self.values@.take(i as int));
                assert(t.last() == self.values@[i as int]);
                if i == 0 {
                    assert(out@ =~= render_values(t));
                } else {
                    assert(out@ =~= render_values(t.drop_last()) + seq!['.'] + dec_digits(
                        t.last() as nat,
                    ));
                }
            }
            i = i + 1;
        }
        proof {
            assert(self.values@.take(n as int) =~= self.values@);
        }
        out
    }
}

/// Splitting from `i` is splitting the suffix from its start.
proof fn lemma_components_shift(s: Seq<char>, i: int)
    requires
        0 <= i <= s.len(),
    ensures
        dot_components(s, i) == dot_components(s.skip(i), 0),
    decreases s.len() - i,
{
    let e = next_dot(s, i);
    lemma_next_dot(s, i);
    let t = s.skip(i);
    assert forall|j: int| 0 <= j < e - i implies t[j] != '.' by {
        assert(t[j] == s[i + j]);
    }
    lemma_next_dot_at(t, 0, e - i);
    assert(s.subrange(i, e) =~= t.subrange(0, e - i));
    if e == s.len() {
        assert(dot_components(s, i) =~= dot_components(t, 0));
    } else {
        lemma_components_shift(s, e + 1);
        lemma_components_shift(t, e - i + 1);
        assert(t.skip(e - i + 1) =~= s.skip(e + 1));
        assert(dot_components(s, i) =~= dot_components(t, 0));
    }
}

/// Splitting around an explicit dot splits the two sides independently.
proof fn lemma_components_concat(x: Seq<char>, y: Seq<char>)
    ensures
        dot_components(x + seq!['.'] + y, 0) == dot_components(x, 0) + dot_components(y, 0),
    decreases x.len(),
{
    let s = x + seq!['.'] + y;
    let e = next_dot(x, 0);
    lemma_next_dot(x, 0);
    assert forall|j: int| 0 <= j < e implies s[j] != '.' by {
        assert(s[j] == x[j]);
    }
    if e == x.len() {
        assert(s[e] == '.');
        lemma_next_dot_at(s, 0, e);
        lemma_components_shift(s, e + 1);
        assert(s.skip(e + 1) =~= y);
        assert(s.subrange(0, e) =~= x.subrange(0, e));
        assert(dot_components(x, 0) =~= seq![x.subrange(0, e)]);
        assert(dot_components(s, 0) =~= dot_components(x, 0) + dot_components(y, 0));
    } else {
        assert(s[e] == x[e]);
        lemma_next_dot_at(s, 0, e);
        lemma_components_shift(s, e + 1);
        lemma_components_shift(x, e + 1);
        assert(s.skip(e + 1) =~= x.skip(e + 1) + seq!['.'] + y);
        lemma_components_concat(x.skip(e + 1), y);
        assert(s.subrange(0, e) =~= x.subrange(0, e));
        assert(dot_components(s, 0) =~= dot_components(x, 0) + dot_components(y, 0));
    }
}

/// The components of a rendered version are the digits of its values.
proof fn lemma_render_components(v: Seq<u32>)
    requires
        v.len() >= 1,
    ensures
        dot_components(render_values(v), 0) == v.map_values(|x: u32| dec_digits(x as nat)),
    decreases v.len(),
{
    let r = render_values(v);
    if v.len() == 1 {
        lemma_dec_digits(v[0] as nat);
        lemma_next_dot_at(r, 0, r.len() as int);
        assert(r.subrange(0, r.len() as int) =~= r);
        assert(dot_components(r, 0) =~= v.map_values(|x: u32| dec_digits(x as nat)));
    } else {
        lemma_render_components(v.drop_last());
        lemma_dec_digits(v.last() as nat);
        lemma_components_concat(render_values(v.drop_last()), dec_digits(v.last() as nat));
        let d = dec_digits(v.last() as nat);
        lemma_next_dot_at(d, 0, d.len() as int);
        assert(d.subrange(0, d.len() as int) =~= d);
        assert(dot_components(d, 0) =~= seq![d]);
        assert(dot_components(r, 0) =~= v.map_values(|x: u32| dec_digits(x as nat)));
    }
}

/// Stripping trailing zeros leaves a normalized sequence.
pub proof fn lemma_norm_normalized(v: Seq<u32>)
    ensures
        normalized(norm(v)),
        normalized(v) ==> norm(v) == v,
    decreases v.len(),
{
    if v.len() > 0 && v.last() == 0 {
        lemma_norm_normalized(v.drop_last());
    }
}

/// Rendering a normalized, non-empty version and parsing the text again
/// gives the version back.
pub proof fn lemma_render_roundtrip_values(v: Seq<u32>)
    requires
        normalized(v),
        v.len() > 0,
    ensures
        version_text_valid(render_values(v)),
        spec_version_values(render_values(v)) == v,
{
    let r = render_values(v);
    lemma_render_components(v);
    let comps = dot_components(r, 0);
    assert forall|j: int| 0 <= j < comps.len() implies is_component(#[trigger] comps[j]) by {
        lemma_dec_digits(v[j] as nat);
    }
    assert forall|j: int|
        0 <= j < comps.len() implies #[trigger] component_val(comps[j]) == v[j] by {
        lemma_dec_digits(v[j] as nat);
    }
    assert(comps.map_values(|c: Seq<char>| component_val(c)) =~= v);
    lemma_norm_normalized(v);
}

/// Parsing, rendering and re-parsing is idempotent: trailing-zero stripping
/// is a fixed point. The one excluded case is a version whose components are
/// all zero, which renders as the empty text, and the empty text does not
/// parse.
pub proof fn lemma_parse_render_roundtrip(s: Seq<char>)
    requires
        version_text_valid(s),
        spec_version_values(s).len() > 0,
    ensures
        version_text_valid(render_values(spec_version_values(s))),
        spec_version_values(render_values(spec_version_values(s))) == spec_version_values(s),
{
    let v = spec_version_values(s);
    lemma_norm_normalized(dot_components(s, 0).map_values(|c: Seq<char>| component_val(c)));
    lemma_render_roundtrip_values(v);
}

/// The position of the last `_` in the text, or -1 if there is none.
pub open spec fn rfind_underscore(s: Seq<char>) -> int
    decreases s.len(),
{
    if s.len() == 0 {
        -1
    } else if s.last() == '_' {
        s.len() - 1
    } else {
        rfind_underscore(s.drop_last())
    }
}

proof fn lemma_rfind_at(s: Seq<char>, p: int)
    requires
        0 <= p < s.len(),
        s[p] == '_',
        forall|j: int| p < j < s.len() ==> s[j] != '_',
    ensures
        rfind_underscore(s) == p,
    decreases s.len(),
{
    if p < s.len() - 1 {
        lemma_rfind_at(s.drop_last(), p);
    }
}

proof fn lemma_rfind_none(s: Seq<char>)
    requires
        forall|j: int| 0 <= j < s.len() ==> s[j] != '_',
    ensures
        rfind_underscore(s) == -1,
    decreases s.len(),
{
    if s.len() > 0 {
        lemma_rfind_none(s.drop_last());
    }
}

/// The abstract value of a namespaced version: a namespace text and a
/// normalized component sequence.
#[verifier::ext_equal]
pub struct NamespacedVersionModel {
    pub namespace: Seq<char>,
    pub version: Seq<u32>,
}

/// What parsing a `NAMESPACE_version` token yields: the namespace is the
/// text before the last `_`, the version the text after it, which must
/// start with an ASCII digit.
pub open spec fn spec_parse_namespaced(s: Seq<char>) -> Result<NamespacedVersionModel, ParseError> {
    let p = rfind_underscore(s);
    if p < 0 {
        Err(ParseError::MissingSeparator)
    } else if p == 0 {
        Err(ParseError::EmptyNamespace)
    } else {
        let rest = s.skip(p + 1);
        if rest.len() == 0 || !is_digit(rest[0]) {
            Err(ParseError::InvalidFormat)
        } else if !version_text_valid(rest) {
            Err(ParseError::InvalidVersion)
        } else {
            Ok(
                NamespacedVersionModel {
                    namespace: s.subrange(0, p),
                    version: spec_version_values(rest),
                },
            )
        }
    }
}

/// A version number under a versioning namespace, e.g. `GLIBC_2.17`.
#[derive(Debug)]
pub struct NamespacedVersion {
    pub namespace: String,
    pub version: Version,
}

impl View for NamespacedVersion {
    type V = NamespacedVersionModel;

    open spec fn view(&self) -> NamespacedVersionModel {
        NamespacedVersionModel { namespace: self.namespace@, version: self.version@ }
    }
}

impl NamespacedVersion {
    /// The namespace is never empty and the version is normalized.
    pub open spec fn wf(&self) -> bool {
        self.namespace@.len() > 0 && normalized(self.version@)
    }

    /// Splits a token on its last `_` and parses the version after it.
    pub fn parse(text: &str) -> (r: Result<NamespacedVersion, ParseError>)
        ensures
            match r {
                Ok(nv) => spec_parse_namespaced(text@) == Ok::<NamespacedVersionModel, ParseError>(
                    nv@,
                ) && nv.wf(),
                Err(e) => spec_parse_namespaced(text@) == Err::<
                    NamespacedVersionModel,
                    ParseError,
                >(e),
            },
    {
        let chars = chars_of(text);
        let n = chars.len();
        let mut i: usize = n;
        let mut pos: usize = 0;
        let mut found = false;
        loop
            invariant_except_break
                !found,
                forall|j: int| i <= j < n ==> text@[j] != '_',
            invariant
                chars@ == text@,
                n == text@.len(),
                i <= n,
            ensures
                found ==> i < n && pos == i && text@[pos as int] == '_' && (forall|j: int|
                    pos < j < n ==> text@[j] != '_'),
                !found ==> forall|j: int| 0 <= j < n ==> text@[j] != '_',
            decreases i,
        {
            if i == 0 {
                break ;
            }
            i = i - 1;
            if chars[i] == '_' {
                pos = i;
                found = true;
                break ;
            }
        }
        if !found {
            proof {
                lemma_rfind_none(text@);
            }
            return Err(ParseError::MissingSeparator);
        }
        proof {
            lemma_rfind_at(text@, pos as int);
        }
        if pos == 0 {
            return Err(ParseError::EmptyNamespace);
        }
        let ghost rest = text@.skip(pos + 1);
        if pos + 1 == n {
            return Err(ParseError::InvalidFormat);
        }
        let c0 = chars[pos + 1];
        let u = c0 as u32;
        proof {
            assert(rest[0] == text@[pos + 1]);
        }
        if u < 48 || u > 57 {
            return Err(ParseError::InvalidFormat);
        }
        let vtext = text.substring_char(pos + 1, n);
        proof {
            assert(vtext@ =~= rest);
        }
        match Version::parse(vtext) {
            Err(_) => Err(ParseError::InvalidVersion),
            Ok(version) => {
                let ns_str = text.substring_char(0, pos);
                let namespace = String::from_str(ns_str);
                let nv = NamespacedVersion { namespace, version };
                proof {
                    assert(spec_parse_namespaced(text@) == Ok::<
                        NamespacedVersionModel,
                        ParseError,
                    >(nv@)) by {
                        assert(spec_parse_namespaced(text@)->Ok_0 =~= nv@);
                    }
                }
                Ok(nv)
            },
        }
    }

    /// The canonical text `namespace_version`.
    pub fn to_text(&self) -> (r: String)
        ensures
            r@ == render_namespaced(self@),
    {
        let mut out = self.namespace.clone();
        push_char(&mut out, '_');
        let vt = self.version.to_text();
        out.append(vt.as_str());
        proof {
            assert(out@ =~= render_namespaced(self@));
        }
        out
    }
}

/// The canonical text of a namespaced version.
pub open spec fn render_namespaced(m: NamespacedVersionModel) -> Seq<char> {
    m.namespace + seq!['_'] + render_values(m.version)
}

/// Lexicographic order on texts, by unicode code point.
pub open spec fn str_cmp(a: Seq<char>, b: Seq<char>) -> Ordering
    decreases a.len() + b.len(),
{
    if a.len() == 0 && b.len() == 0 {
        Ordering::Equal
    } else if a.len() == 0 {
        Ordering::Less
    } else if b.len() == 0 {
        Ordering::Greater
    } else if (a[0] as u32) < (b[0] as u32) {
        Ordering::Less
    } else if (a[0] as u32) > (b[0] as u32) {
        Ordering::Greater
    } else {
        str_cmp(a.drop_first(), b.drop_first())
    }
}

/// The suffix of `s` from `i` on; empty when `i` runs past the end.
spec fn skip_chars(s: Seq<char>, i: int) -> Seq<char> {
    if i <= s.len() {
        s.skip(i)
    } else {
        Seq::empty()
    }
}

/// Compares two texts lexicographically by code point.
pub fn cmp_chars(a: &Vec<char>, b: &Vec<char>) -> (r: Ordering)
    ensures
        r == str_cmp(a@, b@),
{
    let mut i: usize = 0;
    proof {
        assert(skip_chars(a@, 0) =~= a@);
        assert(skip_chars(b@, 0) =~= b@);
    }
    loop
        invariant
            i <= a@.len() && i <= b@.len(),
            str_cmp(a@, b@) == str_cmp(skip_chars(a@, i as int), skip_chars(b@, i as int)),
        ensures
            i <= a.len() && i <= b.len(),
            i == a.len() || i == b.len(),
            str_cmp(a@, b@) == str_cmp(skip_chars(a@, i as int), skip_chars(b@, i as int)),
        decreases a@.len() + b@.len() - i,
    {
        if !(i < a.len() && i < b.len()) {
            break ;
        }
        let x = a[i] as u32;
        let y = b[i] as u32;
        if x < y {
            return Ordering::Less;
        }
        if x > y {
            return Ordering::Greater;
        }
        proof {
            assert(skip_chars(a@, i as int).drop_first() =~= skip_chars(a@, i + 1 as int));
            assert(skip_chars(b@, i as int).drop_first() =~= skip_chars(b@, i + 1 as int));
        }
        i = i + 1;
    }
    if a.len() < b.len() {
        proof {
            assert(skip_chars(a@, i as int) =~= Seq::<char>::empty());
        }
        Ordering::Less
    } else if a.len() > b.len() {
        proof {
            assert(skip_chars(b@, i as int) =~= Seq::<char>::empty());
        }
        Ordering::Greater
    } else {
        proof {
            assert(skip_chars(a@, i as int) =~= Seq::<char>::empty());
            assert(skip_chars(b@, i as int) =~= Seq::<char>::empty());
        }
        Ordering::Equal
    }
}

/// Order on namespaced versions: namespace text first, then version.
pub open spec fn namespaced_cmp(a: NamespacedVersionModel, b: NamespacedVersionModel) -> Ordering {
    if str_cmp(a.namespace, b.namespace) == Ordering::Equal {
        version_cmp(a.version, b.version)
    } else {
        str_cmp(a.namespace, b.namespace)
    }
}

/// Compares two namespaced versions by namespace, then version.
pub fn cmp_namespaced(a: &NamespacedVersion, b: &NamespacedVersion) -> (r: Ordering)
    ensures
        r == namespaced_cmp(a@, b@),
{
    let an = chars_of(a.namespace.as_str());
    let bn = chars_of(b.namespace.as_str());
    let c = cmp_chars(&an, &bn);
    match c {
        Ordering::Equal => cmp_values(&a.version.values, &b.version.values),
        _ => c,
    }
}

impl PartialEq for NamespacedVersion {
    fn eq(&self, other: &Self) -> (r: bool) {
        self.namespace.eq(&other.namespace) && vec_u32_eq(&self.version.values, &other.version.values)
    }
}

impl vstd::std_specs::cmp::PartialEqSpecImpl for NamespacedVersion {
    open spec fn obeys_eq_spec() -> bool {
        true
    }

    open spec fn eq_spec(&self, other: &Self) -> bool {
        self.namespace@ == other.namespace@ && self.version@ == other.version@
    }
}

impl PartialOrd for NamespacedVersion {
    fn partial_cmp(&self, other: &Self) -> (r: Option<Ordering>) {
        Some(cmp_namespaced(self, other))
    }
}

impl vstd::std_specs::cmp::PartialOrdSpecImpl for NamespacedVersion {
    open spec fn obeys_partial_cmp_spec() -> bool {
        true
    }

    open spec fn partial_cmp_spec(&self, other: &Self) -> Option<Ordering> {
        Some(namespaced_cmp(self@, other@))
    }
}

impl Clone for NamespacedVersion {
    /// The copy holds the same namespace and version.
    fn clone(&self) -> (r: Self)
        ensures
            r@ == self@,
    {
        NamespacedVersion { namespace: self.namespace.clone(), version: self.version.clone() }
    }
}

} // verus!
