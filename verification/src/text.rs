//! Text building blocks: decimal and hexadecimal rendering, and lookup of a
//! string in a list of strings.

use vstd::prelude::*;
use vstd::string::{StrSliceExecFns, StringExecFns};

verus! {

/// `String::push` of std. Trusted: the string afterwards is the string
/// before with `ch` at its end.
pub assume_specification[ String::push ](s: &mut String, ch: char)
    ensures
        final(s)@ == old(s)@.push(ch),
;

/// What `{:?}` writes for a string: the quoted, escaped form.
pub uninterp spec fn debug_quoted(s: Seq<char>) -> Seq<char>;

/// Formats a string with std's `Debug` for `str`. Trusted: the result is the
/// quoted form of `s`, which depends on the characters of `s` alone.
#[verifier::external_body]
pub(crate) fn quote_debug(s: &str) -> (r: String)
    ensures
        r@ == debug_quoted(s@),
{
    format!("{:?}", s)
}

/// Takes `prefix` off the front with `str::strip_prefix` of std. Trusted:
/// where `s` begins with `prefix` the rest is handed back, and nothing where
/// it does not.
#[verifier::external_body]
pub(crate) fn strip_prefix<'a>(s: &'a str, prefix: &str) -> (r: Option<&'a str>)
    ensures
        match r {
            Some(rest) => s@ == prefix@ + rest@,
            None => !prefix@.is_prefix_of(s@),
        },
{
    s.strip_prefix(prefix)
}

/// Whether `needle` stands in `hay` at `i`.
pub open spec fn occurs_at(hay: Seq<char>, needle: Seq<char>, i: int) -> bool {
    0 <= i && i + needle.len() <= hay.len() && hay.subrange(i, i + needle.len()) == needle
}

/// Whether `needle` stands in `hay` at `i` and nowhere before.
pub open spec fn first_at(hay: Seq<char>, needle: Seq<char>, i: int) -> bool {
    occurs_at(hay, needle, i) && forall|j: int| 0 <= j < i ==> !occurs_at(hay, needle, j)
}

/// What follows the first `needle` in `hay`, if `needle` stands in it.
pub open spec fn after_first(hay: Seq<char>, needle: Seq<char>) -> Option<Seq<char>> {
    if exists|i: int| first_at(hay, needle, i) {
        let i = choose|i: int| first_at(hay, needle, i);
        Some(hay.subrange(i + needle.len(), hay.len() as int))
    } else {
        None
    }
}

/// Splits at the first `sep` with `str::split_once` of std. Trusted: where
/// `sep` stands in `s`, what comes back is what stands before its first
/// occurrence and what stands after it; where it does not, nothing.
#[verifier::external_body]
pub(crate) fn split_once<'a>(s: &'a str, sep: &str) -> (r: Option<(&'a str, &'a str)>)
    ensures
        match r {
            Some((before, after)) => s@ == before@ + sep@ + after@ && first_at(
                s@,
                sep@,
                before@.len() as int,
            ),
            None => forall|i: int| !occurs_at(s@, sep@, i),
        },
{
    s.split_once(sep)
}

/// What follows the first `sep` in `s`, if `sep` stands in it.
pub fn rest_after<'a>(s: &'a str, sep: &str) -> (r: Option<&'a str>)
    ensures
        match r {
            Some(rest) => after_first(s@, sep@) == Some(rest@),
            None => after_first(s@, sep@) is None,
        },
{
    match split_once(s, sep) {
        Some((before, after)) => {
            proof {
                let n = before@.len() as int;
                let i = choose|i: int| first_at(s@, sep@, i);
                assert(first_at(s@, sep@, i));
                if i < n {
                    assert(!occurs_at(s@, sep@, i));
                } else if n < i {
                    assert(!occurs_at(s@, sep@, n));
                }
                assert(s@.subrange(n + sep@.len(), s@.len() as int) =~= after@);
            }
            Some(after)
        },
        None => None,
    }
}

/// The views of a list of strings, in order.
pub open spec fn texts(list: Seq<String>) -> Seq<Seq<char>> {
    list.map_values(|s: String| s@)
}

/// The character that stands for a digit below sixteen, lower case.
pub open spec fn digit_char(d: nat) -> char {
    if d == 0 {
        '0'
    } else if d == 1 {
        '1'
    } else if d == 2 {
        '2'
    } else if d == 3 {
        '3'
    } else if d == 4 {
        '4'
    } else if d == 5 {
        '5'
    } else if d == 6 {
        '6'
    } else if d == 7 {
        '7'
    } else if d == 8 {
        '8'
    } else if d == 9 {
        '9'
    } else if d == 10 {
        'a'
    } else if d == 11 {
        'b'
    } else if d == 12 {
        'c'
    } else if d == 13 {
        'd'
    } else if d == 14 {
        'e'
    } else {
        'f'
    }
}

/// A number written in base ten, without sign or leading zeros.
pub open spec fn decimal(n: nat) -> Seq<char>
    decreases n,
{
    if n < 10 {
        seq![digit_char(n)]
    } else {
        decimal(n / 10).push(digit_char(n % 10))
    }
}

/// Bytes written as two lower-case hexadecimal digits each.
pub open spec fn hex_lower(bytes: Seq<u8>) -> Seq<char>
    decreases bytes.len(),
{
    if bytes.len() == 0 {
        Seq::empty()
    } else {
        hex_lower(bytes.drop_last()).push(digit_char((bytes.last() / 16) as nat)).push(
            digit_char((bytes.last() % 16) as nat),
        )
    }
}

/// Two different numbers are never written alike.
pub proof fn lemma_decimal_injective(a: nat, b: nat)
    requires
        decimal(a) == decimal(b),
    ensures
        a == b,
    decreases a,
{
    if a < 10 && b < 10 {
        assert(decimal(a)[0] == digit_char(a));
        assert(decimal(b)[0] == digit_char(b));
        lemma_digit_char_injective(a, b);
    } else if a < 10 {
        assert(decimal(b).len() == decimal(b / 10).len() + 1);
        lemma_decimal_nonempty(b / 10);
    } else if b < 10 {
        assert(decimal(a).len() == decimal(a / 10).len() + 1);
        lemma_decimal_nonempty(a / 10);
    } else {
        let da = decimal(a / 10);
        let db = decimal(b / 10);
        assert(decimal(a).last() == digit_char(a % 10));
        assert(decimal(b).last() == digit_char(b % 10));
        assert(da =~= decimal(a).drop_last());
        assert(db =~= decimal(b).drop_last());
        lemma_decimal_injective(a / 10, b / 10);
        lemma_digit_char_injective(a % 10, b % 10);
    }
}

/// Two different digits never share a character.
pub proof fn lemma_digit_char_injective(a: nat, b: nat)
    requires
        a < 16,
        b < 16,
        digit_char(a) == digit_char(b),
    ensures
        a == b,
{
}

/// A written number has at least one digit.
pub proof fn lemma_decimal_nonempty(n: nat)
    ensures
        decimal(n).len() >= 1,
    decreases n,
{
    if n >= 10 {
        lemma_decimal_nonempty(n / 10);
    }
}

/// A written number holds digits only.
pub proof fn lemma_decimal_digits(n: nat, i: int)
    requires
        0 <= i < decimal(n).len(),
    ensures
        '0' <= decimal(n)[i] <= '9',
    decreases n,
{
    if n >= 10 {
        if i < decimal(n / 10).len() {
            lemma_decimal_digits(n / 10, i);
        }
    }
}

/// A text with the number of its characters and a colon before it. Texts
/// written so can stand one after the other and still be told apart.
pub open spec fn counted(s: Seq<char>) -> Seq<char> {
    decimal(s.len()) + seq![':'] + s
}

/// Where two counted texts, each followed by something, read alike, the
/// texts are the same and so is what follows them.
pub proof fn lemma_counted_splits(a: Seq<char>, x: Seq<char>, b: Seq<char>, y: Seq<char>)
    requires
        counted(a) + x == counted(b) + y,
    ensures
        a == b,
        x == y,
{
    let da = decimal(a.len());
    let db = decimal(b.len());
    let left = counted(a) + x;
    let right = counted(b) + y;
    let na = da.len() as int;
    let nb = db.len() as int;
    assert(left[na] == ':');
    assert(right[nb] == ':');
    if na < nb {
        lemma_decimal_digits(b.len(), na);
        assert(right[na] == db[na]);
    } else if nb < na {
        lemma_decimal_digits(a.len(), nb);
        assert(left[nb] == da[nb]);
    }
    assert(da =~= db) by {
        assert forall|i: int| 0 <= i < na implies da[i] == db[i] by {
            assert(left[i] == da[i]);
            assert(right[i] == db[i]);
        }
    }
    lemma_decimal_injective(a.len(), b.len());
    assert(a =~= b) by {
        assert forall|i: int| 0 <= i < a.len() implies a[i] == b[i] by {
            assert(left[na + 1 + i] == a[i]);
            assert(right[na + 1 + i] == b[i]);
        }
    }
    let n = na + 1 + a.len();
    assert(x =~= left.subrange(n, left.len() as int));
    assert(y =~= right.subrange(n, right.len() as int));
}

/// Every byte is written as two digits.
pub proof fn lemma_hex_lower_len(bytes: Seq<u8>)
    ensures
        hex_lower(bytes).len() == 2 * bytes.len(),
    decreases bytes.len(),
{
    if bytes.len() > 0 {
        lemma_hex_lower_len(bytes.drop_last());
    }
}

fn digit(d: u8) -> (c: char)
    requires
        d < 16,
    ensures
        c == digit_char(d as nat),
{
    match d {
        0 => '0',
        1 => '1',
        2 => '2',
        3 => '3',
        4 => '4',
        5 => '5',
        6 => '6',
        7 => '7',
        8 => '8',
        9 => '9',
        10 => 'a',
        11 => 'b',
        12 => 'c',
        13 => 'd',
        14 => 'e',
        _ => 'f',
    }
}

spec fn decimal_or_empty(n: nat) -> Seq<char> {
    if n == 0 {
        Seq::empty()
    } else {
        decimal(n)
    }
}

/// Writes `n` in base ten at the end of `out`.
pub fn append_decimal(out: &mut String, n: u64)
    ensures
        final(out)@ == old(out)@ + decimal(n as nat),
{
    let mut low_first: Vec<char> = Vec::new();
    let mut rest: u64 = n;
    low_first.push(digit((rest % 10) as u8));
    rest = rest / 10;
    assert(decimal(n as nat) =~= decimal_or_empty(rest as nat) + low_first@.reverse());
    while rest > 0
        invariant
            decimal(n as nat) == decimal_or_empty(rest as nat) + low_first@.reverse(),
        decreases rest,
    {
        let ghost before = low_first@;
        let ghost prior = rest;
        low_first.push(digit((rest % 10) as u8));
        rest = rest / 10;
        assert(low_first@.reverse() =~= seq![digit_char((prior % 10) as nat)] + before.reverse());
        assert(decimal(prior as nat) =~= decimal_or_empty(rest as nat) + seq![
            digit_char((prior % 10) as nat),
        ]);
        assert(decimal(n as nat) =~= decimal_or_empty(rest as nat) + low_first@.reverse());
    }
    let mut k: usize = low_first.len();
    while k > 0
        invariant
            k <= low_first.len(),
            out@ == old(out)@ + low_first@.reverse().subrange(0, low_first.len() - k),
        decreases k,
    {
        k = k - 1;
        out.push(low_first[k]);
        assert(out@ =~= old(out)@ + low_first@.reverse().subrange(0, low_first.len() - k));
    }
    assert(low_first@.reverse().subrange(0, low_first.len() as int) =~= low_first@.reverse());
}

/// Writes `s` at the end of `out`, with the number of its characters and a
/// colon before it.
pub fn append_counted(out: &mut String, s: &str)
    ensures
        final(out)@ == old(out)@ + counted(s@),
{
    append_decimal(out, s.unicode_len() as u64);
    out.push(':');
    out.append(s);
    assert(out@ =~= old(out)@ + counted(s@));
}

/// `n` in base ten.
pub fn decimal_string(n: u64) -> (r: String)
    ensures
        r@ == decimal(n as nat),
{
    let mut out = String::new();
    append_decimal(&mut out, n);
    assert(Seq::<char>::empty() + decimal(n as nat) =~= decimal(n as nat));
    out
}

/// The bytes in lower-case hexadecimal, at the end of `out`.
pub fn append_hex(out: &mut String, bytes: &[u8])
    ensures
        final(out)@ == old(out)@ + hex_lower(bytes@),
{
    let mut i: usize = 0;
    assert(bytes@.subrange(0, 0) =~= Seq::<u8>::empty());
    assert(out@ =~= old(out)@ + hex_lower(bytes@.subrange(0, 0)));
    while i < bytes.len()
        invariant
            i <= bytes.len(),
            out@ == old(out)@ + hex_lower(bytes@.subrange(0, i as int)),
        decreases bytes.len() - i,
    {
        let b: u8 = bytes[i];
        out.push(digit(b / 16));
        out.push(digit(b % 16));
        assert(bytes@.subrange(0, i + 1).drop_last() =~= bytes@.subrange(0, i as int));
        assert(bytes@.subrange(0, i + 1).last() == b);
        i = i + 1;
        assert(out@ =~= old(out)@ + hex_lower(bytes@.subrange(0, i as int)));
    }
    assert(bytes@.subrange(0, i as int) =~= bytes@);
}

/// Where `needle` stands in `list`, if it does.
pub fn position(list: &Vec<String>, needle: &str) -> (r: Option<usize>)
    ensures
        match r {
            Some(i) => i < list.len() && list[i as int]@ == needle@ && forall|j: int|
                0 <= j < i ==> list[j]@ != needle@,
            None => forall|j: int| 0 <= j < list.len() ==> list[j]@ != needle@,
        },
{
    let mut i: usize = 0;
    while i < list.len()
        invariant
            i <= list.len(),
            forall|j: int| 0 <= j < i ==> list[j]@ != needle@,
        decreases list.len() - i,
    {
        if same_text(list[i].as_str(), needle) {
            return Some(i);
        }
        i = i + 1;
    }
    None
}

/// Whether two strings hold the same characters.
pub fn same_text(a: &str, b: &str) -> (r: bool)
    ensures
        r == (a@ == b@),
{
    let x = a.to_owned();
    let y = b.to_owned();
    x == y
}

} // verus!
