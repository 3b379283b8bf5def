//! Small text building blocks: decimal numbers, equality, trimming.
use vstd::arithmetic::div_mod::*;
use vstd::arithmetic::power::*;
use vstd::prelude::*;
use vstd::string::*;
use vstd::utf8::*;

verus! {

/// The character of a decimal digit.
pub open spec fn digit_char(d: nat) -> char {
    if d == 0 {
        '0'
    } else if d == 1 {
        '1'
    } else if d == 2 {
        '2'
    } else if d == 3 {
        '3'
    } else if d == 4 {
        '4'
    } else if d == 5 {
        '5'
    } else if d == 6 {
        '6'
    } else if d == 7 {
        '7'
    } else if d == 8 {
        '8'
    } else {
        '9'
    }
}

/// Decimal notation of a number, without leading zeros.
pub open spec fn decimal(n: nat) -> Seq<char>
    decreases n,
{
    if n < 10 {
        seq![digit_char(n)]
    } else {
        decimal(n / 10).push(digit_char(n % 10))
    }
}

/// Decimal notation padded with a zero to at least two characters.
pub open spec fn decimal2(n: nat) -> Seq<char> {
    if n < 10 {
        seq!['0', digit_char(n)]
    } else {
        decimal(n)
    }
}

/// Decimal notation has at least one character, all of them digits.
pub proof fn lemma_decimal_digits(n: nat)
    ensures
        decimal(n).len() > 0,
        forall|i: int| 0 <= i < decimal(n).len() ==> '0' <= #[trigger] decimal(n)[i] <= '9',
    decreases n,
{
    if n >= 10 {
        lemma_decimal_digits(n / 10);
    }
}

/// Digit `k` of a decimal notation, counted from the last, is that of the number. The
/// notation starts with a digit that is not 0, but for the number 0 itself.
pub proof fn decimal_by_place(n: nat, k: nat)
    ensures
        k < decimal(n).len() ==> decimal(n)[decimal(n).len() - 1 - k] as int == '0' as int + n / (
        pow(10, k) as nat) % 10,
        k >= decimal(n).len() ==> n / (pow(10, k) as nat) == 0,
        n > 0 ==> decimal(n)[0] != '0',
        n == 0 ==> decimal(n) == seq!['0'],
    decreases n,
{
    lemma_pow_positive(10, k);
    lemma_decimal_digits(n);
    if k == 0 {
        lemma_pow0(10);
        assert(n / 1 == n);
        if n >= 10 {
            decimal_by_place(n / 10, 0);
        }
    } else {
        let j = (k - 1) as nat;
        lemma_pow1(10);
        lemma_pow_adds(10, 1, j);
        lemma_pow_positive(10, j);
        assert(pow(10, k) == 10 * pow(10, j));
        lemma_div_denominator(n as int, 10, pow(10, j));
        if n < 10 {
            lemma_basic_div(n as int, pow(10, k));
        } else {
            decimal_by_place(n / 10, j);
            let d = decimal(n);
            assert(d.len() == decimal(n / 10).len() + 1);
            if k < d.len() {
                assert(d[d.len() - 1 - k] == decimal(n / 10)[decimal(n / 10).len() - 1 - j]);
            }
        }
    }
}

/// A notation padded to two characters is the plain one, with a 0 before a single digit.
pub proof fn decimal_padded(n: nat)
    ensures
        n < 10 ==> decimal2(n) == seq!['0'] + decimal(n),
        n >= 10 ==> decimal2(n) == decimal(n),
        decimal2(n).len() >= 2,
{
    if n >= 10 {
        lemma_decimal_digits(n / 10);
    } else {
        assert(decimal2(n) =~= seq!['0'] + decimal(n));
    }
}

/// Numbers with the same decimal notation are equal.
pub proof fn lemma_decimal_injective(a: nat, b: nat)
    requires
        decimal(a) == decimal(b),
    ensures
        a == b,
    decreases a,
{
    lemma_decimal_digits(a / 10);
    lemma_decimal_digits(b / 10);
    if a >= 10 && b >= 10 {
        assert(decimal(a).drop_last() =~= decimal(a / 10));
        assert(decimal(b).drop_last() =~= decimal(b / 10));
        lemma_decimal_injective(a / 10, b / 10);
        assert(decimal(a).last() == digit_char(a % 10));
        assert(decimal(b).last() == digit_char(b % 10));
    } else if a >= 10 {
        assert(decimal(a).len() == decimal(a / 10).len() + 1);
        assert(decimal(b).len() == 1);
    } else if b >= 10 {
        assert(decimal(b).len() == decimal(b / 10).len() + 1);
        assert(decimal(a).len() == 1);
    } else {
        assert(decimal(a)[0] == digit_char(a));
        assert(decimal(b)[0] == digit_char(b));
    }
}

/// A text splits in one way at the last place where a character occurs.
pub proof fn lemma_split_last(a: Seq<char>, b: Seq<char>, c: Seq<char>, d: Seq<char>, mark: char)
    requires
        a + seq![mark] + b == c + seq![mark] + d,
        !b.contains(mark),
        !d.contains(mark),
    ensures
        a == c,
        b == d,
{
    let s = a + seq![mark] + b;
    let t = c + seq![mark] + d;
    assert(s.len() == a.len() + 1 + b.len());
    assert(t.len() == c.len() + 1 + d.len());
    assert(s[a.len() as int] == mark);
    assert(t[c.len() as int] == mark);
    if a.len() < c.len() {
        assert(s[c.len() as int] == b[c.len() - a.len() - 1]);
    }
    if c.len() < a.len() {
        assert(t[a.len() as int] == d[a.len() - c.len() - 1]);
    }
    assert(a =~= s.take(a.len() as int));
    assert(c =~= t.take(c.len() as int));
    assert(b =~= s.skip(a.len() as int + 1));
    assert(d =~= t.skip(c.len() as int + 1));
}

/// A text splits in one way at the first place where a character occurs.
pub proof fn lemma_split_first(a: Seq<char>, b: Seq<char>, c: Seq<char>, d: Seq<char>, mark: char)
    requires
        a + seq![mark] + b == c + seq![mark] + d,
        !a.contains(mark),
        !c.contains(mark),
    ensures
        a == c,
        b == d,
{
    let s = a + seq![mark] + b;
    let t = c + seq![mark] + d;
    assert(s.len() == a.len() + 1 + b.len());
    assert(t.len() == c.len() + 1 + d.len());
    assert(s[a.len() as int] == mark);
    assert(t[c.len() as int] == mark);
    if a.len() < c.len() {
        assert(t[a.len() as int] == c[a.len() as int]);
    }
    if c.len() < a.len() {
        assert(s[c.len() as int] == a[c.len() as int]);
    }
    assert(a =~= s.take(a.len() as int));
    assert(c =~= t.take(c.len() as int));
    assert(b =~= s.skip(a.len() as int + 1));
    assert(d =~= t.skip(c.len() as int + 1));
}

fn digit_str(d: u64) -> (s: &'static str)
    requires
        d < 10,
    ensures
        s@ == seq![digit_char(d as nat)],
{
    proof {
        reveal_strlit("0");
        reveal_strlit("1");
        reveal_strlit("2");
        reveal_strlit("3");
        reveal_strlit("4");
        reveal_strlit("5");
        reveal_strlit("6");
        reveal_strlit("7");
        reveal_strlit("8");
        reveal_strlit("9");
    }
    let s = match d {
        0 => "0",
        1 => "1",
        2 => "2",
        3 => "3",
        4 => "4",
        5 => "5",
        6 => "6",
        7 => "7",
        8 => "8",
        _ => "9",
    };
    assert(s@ =~= seq![digit_char(d as nat)]);
    s
}

/// Append the decimal notation of `n`.
pub fn push_decimal(out: &mut String, n: u64)
    ensures
        final(out)@ == old(out)@ + decimal(n as nat),
    decreases n,
{
    if n < 10 {
        out.append(digit_str(n));
    } else {
        push_decimal(out, n / 10);
        let ghost mid = out@;
        out.append(digit_str(n % 10));
        assert(out@ =~= old(out)@ + decimal(n as nat));
    }
}

/// Append the decimal notation of `n`, padded to two characters.
pub fn push_decimal2(out: &mut String, n: u64)
    ensures
        final(out)@ == old(out)@ + decimal2(n as nat),
{
    if n < 10 {
        out.append("0");
        out.append(digit_str(n));
        proof {
            reveal_strlit("0");
        }
        assert(out@ =~= old(out)@ + decimal2(n as nat));
    } else {
        push_decimal(out, n);
    }
}

/// Equality of two strings.
pub fn str_eq(a: &str, b: &str) -> (r: bool)
    ensures
        r == (a@ == b@),
{
    let x = a.as_bytes();
    let y = b.as_bytes();
    proof {
        encode_utf8_decode_utf8(a@);
        encode_utf8_decode_utf8(b@);
    }
    if x.len() != y.len() {
        return false;
    }
    let n: usize = x.len();
    let mut i: usize = 0;
    while i < n
        invariant
            n == x@.len(),
            n == y@.len(),
            i <= n,
            forall|j: int| 0 <= j < i ==> x@[j] == y@[j],
            x@ == a.spec_bytes(),
            y@ == b.spec_bytes(),
        decreases n - i,
    {
        if x[i] != y[i] {
            return false;
        }
        i += 1;
    }
    assert(x@ =~= y@);
    true
}

/// A text without the slashes at its end.
pub open spec fn without_end_slashes(s: Seq<char>) -> Seq<char>
    decreases s.len(),
{
    if s.len() > 0 && s.last() == '/' {
        without_end_slashes(s.drop_last())
    } else {
        s
    }
}

/// A text without the slashes at its start.
pub open spec fn without_start_slashes(s: Seq<char>) -> Seq<char>
    decreases s.len(),
{
    if s.len() > 0 && s[0] == '/' {
        without_start_slashes(s.drop_first())
    } else {
        s
    }
}

/// Trimming leaves a start of the text that does not end in a slash and drops nothing but
/// slashes.
pub proof fn end_slashes(s: Seq<char>)
    ensures
        without_end_slashes(s).is_prefix_of(s),
        without_end_slashes(s).len() > 0 ==> without_end_slashes(s).last() != '/',
        forall|i: int| without_end_slashes(s).len() <= i < s.len() ==> #[trigger] s[i] == '/',
    decreases s.len(),
{
    if s.len() > 0 && s.last() == '/' {
        let t = s.drop_last();
        end_slashes(t);
        assert forall|i: int| without_end_slashes(s).len() <= i < s.len() implies #[trigger] s[i]
            == '/' by {
            if i < t.len() {
                assert(t[i] == '/');
            }
        }
        let n = without_end_slashes(s).len() as int;
        assert(without_end_slashes(s) =~= s.subrange(0, n)) by {
            assert(without_end_slashes(t) =~= t.subrange(0, n));
        }
    } else {
        assert(s =~= s.subrange(0, s.len() as int));
    }
}

/// Trimming leaves an end of the text that does not start with a slash and drops nothing
/// but slashes.
pub proof fn start_slashes(s: Seq<char>)
    ensures
        without_start_slashes(s).len() <= s.len(),
        without_start_slashes(s) == s.skip(s.len() - without_start_slashes(s).len()),
        without_start_slashes(s).len() > 0 ==> without_start_slashes(s)[0] != '/',
        forall|i: int|
            0 <= i < s.len() - without_start_slashes(s).len() ==> #[trigger] s[i] == '/',
    decreases s.len(),
{
    if s.len() > 0 && s[0] == '/' {
        let t = s.drop_first();
        start_slashes(t);
        assert forall|i: int| 0 <= i < s.len() - without_start_slashes(s).len() implies #[trigger] s[i]
            == '/' by {
            if i > 0 {
                assert(t[i - 1] == '/');
            }
        }
        assert(without_start_slashes(s) =~= s.skip(s.len() - without_start_slashes(s).len()));
    } else {
        assert(s =~= s.skip(0));
    }
}

/// A text without the slashes at its end.
pub fn trim_end_slashes(s: &str) -> (r: String)
    ensures
        r@ == without_end_slashes(s@),
{
    let mut n: usize = s.unicode_len();
    assert(s@.take(n as int) =~= s@);
    while n > 0 && s.get_char(n - 1) == '/'
        invariant
            n <= s@.len(),
            without_end_slashes(s@.take(n as int)) == without_end_slashes(s@),
        decreases n,
    {
        assert(s@.take(n as int).drop_last() =~= s@.take(n - 1));
        n -= 1;
    }
    let r = s.substring_char(0, n).to_owned();
    assert(r@ =~= s@.take(n as int));
    r
}

/// A text without the slashes at its start.
pub fn trim_start_slashes(s: &str) -> (r: String)
    ensures
        r@ == without_start_slashes(s@),
{
    let n: usize = s.unicode_len();
    let mut i: usize = 0;
    assert(s@.skip(0) =~= s@);
    while i < n && s.get_char(i) == '/'
        invariant
            i <= n == s@.len(),
            without_start_slashes(s@.skip(i as int)) == without_start_slashes(s@),
        decreases n - i,
    {
        assert(s@.skip(i as int).drop_first() =~= s@.skip(i + 1));
        i += 1;
    }
    let r = s.substring_char(i, n).to_owned();
    assert(r@ =~= s@.skip(i as int));
    r
}

/// A copy of a list of texts.
pub fn clone_texts(list: &Vec<String>) -> (r: Vec<String>)
    ensures
        r@ == list@,
{
    let mut r: Vec<String> = Vec::new();
    for i in 0..list.len()
        invariant
            r@ == list@.take(i as int),
    {
        r.push(list[i].clone());
        assert(r@ =~= list@.take(i + 1));
    }
    assert(r@ =~= list@);
    r
}

} // verus!
