use vstd::prelude::*;
use vstd::string::{StrSliceExecFns, StringExecFns};

verus! {

/// A name as the contracts see it: the characters of the string.
pub type Name = Seq<char>;

/// The decimal digit that stands for `d`.
pub open spec fn digit_char(d: nat) -> char {
    if d == 0 {
        '0'
    } else if d == 1 {
        '1'
    } else if d == 2 {
        '2'
    } else if d == 3 {
        '3'
    } else if d == 4 {
        '4'
    } else if d == 5 {
        '5'
    } else if d == 6 {
        '6'
    } else if d == 7 {
        '7'
    } else if d == 8 {
        '8'
    } else {
        '9'
    }
}

/// The decimal numeral of `n`, most significant digit first, without leading zeros.
pub open spec fn decimal(n: nat) -> Seq<char>
    decreases n,
{
    if n < 10 {
        seq![digit_char(n)]
    } else {
        decimal(n / 10).push(digit_char(n % 10))
    }
}

/// The names that a sequence of strings holds, in order.
pub open spec fn names_of(v: Seq<String>) -> Seq<Name> {
    Seq::new(v.len(), |i: int| v[i]@)
}

/// Whether the two texts are the same.
pub fn same_text(a: &str, b: &str) -> (r: bool)
    ensures
        r == (a@ == b@),
{
    String::from_str(a) == String::from_str(b)
}

/// Whether `name` begins with `start`.
pub fn starts_with(name: &str, start: &str) -> (r: bool)
    ensures
        r == start@.is_prefix_of(name@),
{
    let n = start.unicode_len();
    if n > name.unicode_len() {
        return false;
    }
    let mut i: usize = 0;
    while i < n
        invariant
            i <= n,
            n == start@.len(),
            n <= name@.len(),
            forall|j: int| 0 <= j < i ==> start@[j] == name@[j],
        decreases n - i,
    {
        if start.get_char(i) != name.get_char(i) {
            assert(start@[i as int] != name@.subrange(0, n as int)[i as int]);
            return false;
        }
        i += 1;
    }
    assert(start@ =~= name@.subrange(0, n as int));
    true
}

/// `n` spaces.
pub open spec fn spaces(n: nat) -> Seq<char> {
    Seq::new(n, |i: int| ' ')
}

/// `text` with spaces appended until it is `width` characters long, if it is
/// shorter.
pub open spec fn padded(text: Seq<char>, width: nat) -> Seq<char> {
    if text.len() < width {
        text + spaces((width - text.len()) as nat)
    } else {
        text
    }
}

/// `text` with spaces appended until it is `width` characters long, if it is
/// shorter.
pub fn pad_right(text: &str, width: usize) -> (r: String)
    ensures
        r@ == padded(text@, width as nat),
{
    proof {
        reveal_strlit(" ");
    }
    let len = text.unicode_len();
    let mut s = String::from_str(text);
    let mut i: usize = len;
    assert(s@ =~= text@ + spaces(0));
    while i < width
        invariant
            len == text@.len(),
            len <= i,
            i <= width || i == len,
            s@ == text@ + spaces((i - len) as nat),
            " "@ == seq![' '],
        decreases width - i,
    {
        s.append(" ");
        i += 1;
        assert(s@ =~= text@ + spaces((i - len) as nat));
    }
    assert(text@ + spaces(0) =~= text@);
    s
}

/// The one-character string of the digit `d`.
pub fn digit_str(d: usize) -> (r: &'static str)
    requires
        d < 10,
    ensures
        r@ == seq![digit_char(d as nat)],
{
    proof {
        reveal_strlit("0");
        reveal_strlit("1");
        reveal_strlit("2");
        reveal_strlit("3");
        reveal_strlit("4");
        reveal_strlit("5");
        reveal_strlit("6");
        reveal_strlit("7");
        reveal_strlit("8");
        reveal_strlit("9");
    }
    let r = if d == 0 {
        "0"
    } else if d == 1 {
        "1"
    } else if d == 2 {
        "2"
    } else if d == 3 {
        "3"
    } else if d == 4 {
        "4"
    } else if d == 5 {
        "5"
    } else if d == 6 {
        "6"
    } else if d == 7 {
        "7"
    } else if d == 8 {
        "8"
    } else {
        "9"
    };
    assert(r@ =~= seq![digit_char(d as nat)]);
    r
}

/// The decimal numeral of `n`.
pub fn decimal_string(n: usize) -> (r: String)
    ensures
        r@ == decimal(n as nat),
    decreases n,
{
    if n < 10 {
        String::from_str(digit_str(n))
    } else {
        let mut s = decimal_string(n / 10);
        s.append(digit_str(n % 10));
        assert(s@ =~= decimal((n / 10) as nat).push(digit_char((n % 10) as nat)));
        s
    }
}

} // verus!
