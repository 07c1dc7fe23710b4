//! Text as the reports and the command line see it: decimal numbers,
//! fixed-point numbers, percentages and the code-point order of strings.

use vstd::prelude::*;
use vstd::string::*;

use crate::binary64::{lemma_whole_and_nothing, share_tenths, share_tenths_exec};
use crate::sorting::{strict_total_order, Ranked};

verus! {

broadcast use vstd::string::group_string_axioms;

/// The character of a decimal digit.
pub open spec fn digit_char(d: nat) -> char {
    if d == 0 { '0' }
    else if d == 1 { '1' }
    else if d == 2 { '2' }
    else if d == 3 { '3' }
    else if d == 4 { '4' }
    else if d == 5 { '5' }
    else if d == 6 { '6' }
    else if d == 7 { '7' }
    else if d == 8 { '8' }
    else { '9' }
}

/// The decimal notation of `n`, without sign or leading zeros
/// (what `to_string` writes for an unsigned integer).
pub open spec fn decimal(n: nat) -> Seq<char>
    decreases n,
{
    if n < 10 {
        seq![digit_char(n)]
    } else {
        decimal(n / 10).push(digit_char(n % 10))
    }
}

fn digit_str(d: u128) -> (r: &'static str)
    requires
        d < 10,
    ensures
        r@ == seq![digit_char(d as nat)],
{
    proof {
        reveal_strlit("0");
        reveal_strlit("1");
        reveal_strlit("2");
        reveal_strlit("3");
        reveal_strlit("4");
        reveal_strlit("5");
        reveal_strlit("6");
        reveal_strlit("7");
        reveal_strlit("8");
        reveal_strlit("9");
    }
    if d == 0 { "0" }
    else if d == 1 { "1" }
    else if d == 2 { "2" }
    else if d == 3 { "3" }
    else if d == 4 { "4" }
    else if d == 5 { "5" }
    else if d == 6 { "6" }
    else if d == 7 { "7" }
    else if d == 8 { "8" }
    else { "9" }
}

/// Writes `n` in decimal.
pub fn decimal_string(n: u128) -> (r: String)
    ensures
        r@ == decimal(n as nat),
    decreases n,
{
    if n < 10 {
        String::from_str(digit_str(n))
    } else {
        let mut s = decimal_string(n / 10);
        s.append(digit_str(n % 10));
        s
    }
}


/// A share of `count` out of `total`, in percent with one decimal and a `%`
/// sign, such as `40.0%`: `count / total * 100` as binary64 arithmetic
/// computes it, rounded to one decimal; `0.0%` when `total` is zero.
pub open spec fn percent_text(count: nat, total: nat) -> Seq<char> {
    let t = share_tenths(count, total);
    decimal(t / 10) + seq!['.', digit_char(t % 10), '%']
}

/// The six decimals of a fraction given in millionths (`m < 1_000_000`),
/// leading zeros included.
pub open spec fn six_decimals(m: nat) -> Seq<char> {
    decimal(1_000_000 + m).drop_first()
}

/// A number given in millionths, written with exactly six decimals,
/// such as `0.970951`.
pub open spec fn fixed6_text(micros: nat) -> Seq<char> {
    decimal(micros / 1_000_000) + seq!['.'] + six_decimals(micros % 1_000_000)
}

/// The whole is exactly `100.0%`, and nothing is `0.0%`.
pub proof fn lemma_share_whole_and_nothing(total: nat)
    requires
        total > 0,
    ensures
        percent_text(total, total) == decimal(100) + seq!['.', '0', '%'],
        percent_text(0, total) == decimal(0) + seq!['.', '0', '%'],
{
    lemma_whole_and_nothing(total);
}

proof fn lemma_decimal_len_7(n: nat)
    requires
        1_000_000 <= n < 10_000_000,
    ensures
        decimal(n).len() == 7,
{
    reveal_with_fuel(decimal, 7);
}

/// Writes `count` out of `total` as a percentage with one decimal, as the
/// standard one-decimal formatting writes the binary64 value of
/// `count / total * 100` (zero when `total` is zero); the binary64
/// arithmetic is carried out exactly in integers.
pub fn format_percentage(count: usize, total: usize) -> (r: String)
    ensures
        r@ == percent_text(count as nat, total as nat),
{
    let t: u128 = share_tenths_exec(count, total);
    let mut s = decimal_string(t / 10);
    s.append(".");
    s.append(digit_str(t % 10));
    s.append("%");
    proof {
        reveal_strlit(".");
        reveal_strlit("%");
    }
    assert(s@ =~= percent_text(count as nat, total as nat));
    s
}

/// Writes a number given in millionths with exactly six decimals.
pub fn fixed6_string(micros: u64) -> (r: String)
    ensures
        r@ == fixed6_text(micros as nat),
{
    let whole = micros / 1_000_000;
    let frac = micros % 1_000_000;
    let mut s = decimal_string(whole as u128);
    s.append(".");
    let padded = decimal_string(1_000_000 + frac as u128);
    proof {
        lemma_decimal_len_7((1_000_000 + frac) as nat);
        reveal_strlit(".");
    }
    let n = padded.as_str().unicode_len();
    let tail = padded.as_str().substring_char(1, n);
    s.append(tail);
    assert(s@ =~= fixed6_text(micros as nat));
    s
}


/// The order of strings by code points, which is the order in which Rust
/// compares `str` and `String` values: `a` comes strictly before `b`.
pub open spec fn text_before(a: Seq<char>, b: Seq<char>) -> bool
    decreases a.len(),
{
    if a.len() == 0 {
        b.len() > 0
    } else if b.len() == 0 {
        false
    } else if a[0] != b[0] {
        (a[0] as int) < (b[0] as int)
    } else {
        text_before(a.drop_first(), b.drop_first())
    }
}

/// No string comes before itself.
pub proof fn lemma_text_before_irreflexive(a: Seq<char>)
    ensures
        !text_before(a, a),
    decreases a.len(),
{
    if a.len() > 0 {
        lemma_text_before_irreflexive(a.drop_first());
    }
}

/// The order of strings is transitive.
pub proof fn lemma_text_before_transitive(a: Seq<char>, b: Seq<char>, c: Seq<char>)
    requires
        text_before(a, b),
        text_before(b, c),
    ensures
        text_before(a, c),
    decreases a.len(),
{
    if a.len() > 0 && b.len() > 0 && c.len() > 0 && a[0] == b[0] && b[0] == c[0] {
        lemma_text_before_transitive(a.drop_first(), b.drop_first(), c.drop_first());
    }
}

/// Of two different strings, one comes before the other.
pub proof fn lemma_text_before_total(a: Seq<char>, b: Seq<char>)
    requires
        a != b,
    ensures
        text_before(a, b) || text_before(b, a),
    decreases a.len(),
{
    if a.len() > 0 && b.len() > 0 && a[0] == b[0] {
        if a.drop_first() == b.drop_first() {
            assert(a =~= seq![a[0]] + a.drop_first());
            assert(b =~= seq![b[0]] + b.drop_first());
        }
        lemma_text_before_total(a.drop_first(), b.drop_first());
    } else if a.len() > 0 && b.len() > 0 {
    } else if a.len() == 0 && b.len() == 0 {
        assert(a =~= b);
    }
}

/// Two strings never come each before the other.
pub proof fn lemma_text_before_asymmetric(a: Seq<char>, b: Seq<char>)
    ensures
        !(text_before(a, b) && text_before(b, a)),
{
    if text_before(a, b) && text_before(b, a) {
        lemma_text_before_transitive(a, b, a);
        lemma_text_before_irreflexive(a);
    }
}

/// Tells whether `a` comes strictly before `b` in the order of code points.
pub fn text_less(a: &str, b: &str) -> (r: bool)
    ensures
        r == text_before(a@, b@),
{
    let la = a.unicode_len();
    let lb = b.unicode_len();
    let mut i: usize = 0;
    assert(a@.skip(0) =~= a@);
    assert(b@.skip(0) =~= b@);
    while i < la && i < lb
        invariant
            la == a@.len(),
            lb == b@.len(),
            i <= la,
            i <= lb,
            text_before(a@, b@) == text_before(a@.skip(i as int), b@.skip(i as int)),
        decreases la - i,
    {
        let ca = a.get_char(i);
        let cb = b.get_char(i);
        if ca != cb {
            return ca < cb;
        }
        assert(a@.skip(i as int).drop_first() =~= a@.skip(i + 1));
        assert(b@.skip(i as int).drop_first() =~= b@.skip(i + 1));
        i = i + 1;
    }
    i < lb
}

/// Tells whether two strings are equal.
pub fn text_eq(a: &str, b: &str) -> (r: bool)
    ensures
        r == (a@ == b@),
{
    let la = a.unicode_len();
    let lb = b.unicode_len();
    if la != lb {
        return false;
    }
    let mut i: usize = 0;
    while i < la
        invariant
            la == a@.len(),
            lb == b@.len(),
            la == lb,
            i <= la,
            forall|k: int| 0 <= k < i ==> a@[k] == b@[k],
        decreases la - i,
    {
        if a.get_char(i) != b.get_char(i) {
            return false;
        }
        i = i + 1;
    }
    assert(a@ =~= b@);
    true
}


impl Ranked for String {
    open spec fn rank_lt() -> spec_fn(Seq<char>, Seq<char>) -> bool {
        |a: Seq<char>, b: Seq<char>| text_before(a, b)
    }

    proof fn lemma_rank_order() {
        let lt = Self::rank_lt();
        assert forall|x: Seq<char>| !#[trigger] lt(x, x) by {
            lemma_text_before_irreflexive(x);
        }
        assert forall|x: Seq<char>, y: Seq<char>, z: Seq<char>|
            #[trigger] lt(x, y) && #[trigger] lt(y, z) implies lt(x, z) by {
            lemma_text_before_transitive(x, y, z);
        }
        assert forall|x: Seq<char>, y: Seq<char>| x != y implies #[trigger] lt(x, y) || lt(
            y,
            x,
        ) by {
            lemma_text_before_total(x, y);
        }
    }

    fn ranks_before(&self, other: &Self) -> (r: bool) {
        text_less(self.as_str(), other.as_str())
    }
}

} // verus!
