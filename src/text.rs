use vstd::prelude::*;

verus! {

/// The characters of a string, in order.
pub fn str_chars(s: &str) -> (r: Vec<char>)
    ensures
        r@ == s@,
{
    let n = s.unicode_len();
    let mut r: Vec<char> = Vec::new();
    let mut i: usize = 0;
    while i < n
        invariant
            n == s@.len(),
            i <= n,
            r@ == s@.subrange(0, i as int),
        decreases n - i,
    {
        r.push(s.get_char(i));
        i += 1;
    }
    assert(r@ =~= s@);
    r
}

/// Whether a run of characters equals a word.
pub fn chars_eq(a: &Vec<char>, w: &Vec<char>) -> (r: bool)
    ensures
        r == (a@ == w@),
{
    if a.len() != w.len() {
        return false;
    }
    let mut i: usize = 0;
    while i < a.len()
        invariant
            a@.len() == w@.len(),
            i <= a.len(),
            forall|j: int| 0 <= j < i ==> a@[j] == w@[j],
        decreases a.len() - i,
    {
        if a[i] != w[i] {
            return false;
        }
        i += 1;
    }
    assert(a@ =~= w@);
    true
}

/// Whether a run of characters is the single character `c`.
pub fn chars_eq1(a: &Vec<char>, c: char) -> (r: bool)
    ensures
        r == (a@ == seq![c]),
{
    if a.len() == 1 && a[0] == c {
        assert(a@ =~= seq![c]);
        true
    } else {
        false
    }
}

/// Relies on `String::push`: the character is appended at the end.
#[verifier::external_body]
pub(crate) fn push_char(s: &mut String, c: char)
    ensures
        final(s)@ == old(s)@.push(c),
{
    s.push(c)
}

/// A string holding the given characters.
pub fn string_of(v: &Vec<char>) -> (r: String)
    ensures
        r@ == v@,
{
    let mut r = String::new();
    let mut i: usize = 0;
    while i < v.len()
        invariant
            i <= v.len(),
            r@ == v@.subrange(0, i as int),
        decreases v.len() - i,
    {
        push_char(&mut r, v[i]);
        i += 1;
        assert(r@ =~= v@.subrange(0, i as int));
    }
    assert(r@ =~= v@);
    r
}

} // verus!

verus! {

/// The character of a decimal digit.
pub open spec fn digit_char(d: nat) -> char {
    if d == 0 {
        '0'
    } else if d == 1 {
        '1'
    } else if d == 2 {
        '2'
    } else if d == 3 {
        '3'
    } else if d == 4 {
        '4'
    } else if d == 5 {
        '5'
    } else if d == 6 {
        '6'
    } else if d == 7 {
        '7'
    } else if d == 8 {
        '8'
    } else {
        '9'
    }
}

fn digit_exec(d: u64) -> (c: char)
    requires
        d < 10,
    ensures
        c == digit_char(d as nat),
{
    if d == 0 {
        '0'
    } else if d == 1 {
        '1'
    } else if d == 2 {
        '2'
    } else if d == 3 {
        '3'
    } else if d == 4 {
        '4'
    } else if d == 5 {
        '5'
    } else if d == 6 {
        '6'
    } else if d == 7 {
        '7'
    } else if d == 8 {
        '8'
    } else {
        '9'
    }
}

/// The decimal digits of a natural number.
pub open spec fn digits(n: nat) -> Seq<char>
    decreases n,
{
    let d = digit_char(n % 10);
    if n < 10 {
        seq![d]
    } else {
        digits(n / 10).push(d)
    }
}

/// An integer written in decimal, with a `-` before a negative one.
pub open spec fn decimal(n: int) -> Seq<char> {
    if n < 0 {
        seq!['-'] + digits((-n) as nat)
    } else {
        digits(n as nat)
    }
}

/// An integer written in decimal, with a `-` before a negative one.
pub fn int_text(n: i32) -> (r: String)
    ensures
        r@ == decimal(n as int),
{
    let neg = n < 0;
    let mut m: u64 = if neg {
        (0i64 - n as i64) as u64
    } else {
        n as u64
    };
    let ghost whole = m as nat;
    assert(whole == if n < 0 {
        (-n) as nat
    } else {
        n as nat
    });
    let mut out: Vec<char> = Vec::new();
    out.push(digit_exec(m % 10));
    proof {
        if m >= 10 {
            assert(digits(whole) == digits((m / 10) as nat).push(digit_char((m % 10) as nat)));
            assert(digits(whole) =~= digits((m / 10) as nat) + out@);
        } else {
            assert(digits(whole) =~= out@);
        }
    }
    m = m / 10;
    while m > 0
        invariant
            m > 0 ==> digits(whole) == digits(m as nat) + out@,
            m == 0 ==> digits(whole) == out@,
        decreases m,
    {
        let ghost before = out@;
        out.insert(0, digit_exec(m % 10));
        proof {
            assert(out@ =~= seq![digit_char((m % 10) as nat)] + before);
            if m >= 10 {
                assert(digits(m as nat) == digits((m / 10) as nat).push(digit_char((m % 10) as nat)));
                assert(digits(whole) =~= digits((m / 10) as nat) + out@);
            } else {
                assert(digits(m as nat) == seq![digit_char((m % 10) as nat)]);
                assert(digits(whole) =~= out@);
            }
        }
        m = m / 10;
    }
    let body = string_of(&out);
    proof {
        reveal_strlit("-");
        assert("-"@ =~= seq!['-']);
    }
    if neg {
        concat("-", body.as_str())
    } else {
        body
    }
}

/// `a` followed by `b`.
pub fn concat(a: &str, b: &str) -> (r: String)
    ensures
        r@ == a@ + b@,
{
    let mut r = String::from_str(a);
    r.append(b);
    r
}

} // verus!
