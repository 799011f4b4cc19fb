//! Character-level text operations used by the wire format: comparison,
//! search, splitting on a separator, and decimal numerals.
use vstd::prelude::*;
use vstd::string::*;
use vstd::utf8::encode_utf8;

verus! {

/// Whether `pat` occurs in `s` at index `i`.
pub open spec fn occurs_at(s: Seq<char>, pat: Seq<char>, i: int) -> bool {
    0 <= i && i + pat.len() <= s.len() && s.subrange(i, i + pat.len()) == pat
}

/// The first index at or after `i` where `pat` occurs in `s`.
pub open spec fn occurrence_from(s: Seq<char>, pat: Seq<char>, i: int) -> Option<int>
    decreases s.len() + 1 - i,
{
    if i < 0 || i + pat.len() > s.len() {
        None
    } else if occurs_at(s, pat, i) {
        Some(i)
    } else {
        occurrence_from(s, pat, i + 1)
    }
}

/// The first index where `pat` occurs in `s`.
pub open spec fn first_occurrence(s: Seq<char>, pat: Seq<char>) -> Option<int> {
    occurrence_from(s, pat, 0)
}

pub proof fn lemma_occurrence_from(s: Seq<char>, pat: Seq<char>, i: int)
    requires
        0 <= i,
    ensures
        occurrence_from(s, pat, i) matches Some(j) ==> i <= j && occurs_at(s, pat, j),
        forall|k: int|
            i <= k && (occurrence_from(s, pat, i) matches Some(j) ==> k < j) ==> !occurs_at(
                s,
                pat,
                k,
            ),
    decreases s.len() + 1 - i,
{
    if i + pat.len() <= s.len() && !occurs_at(s, pat, i) {
        lemma_occurrence_from(s, pat, i + 1);
    }
}

/// The pieces of `s` between the occurrences of `sep`, from left to right
/// (one piece, `s` itself, where `sep` does not occur).
pub open spec fn split_text(s: Seq<char>, sep: Seq<char>) -> Seq<Seq<char>>
    decreases s.len(),
{
    match first_occurrence(s, sep) {
        Some(i) => if sep.len() > 0 && 0 <= i && i + sep.len() <= s.len() {
            seq![s.take(i)] + split_text(s.skip(i + sep.len()), sep)
        } else {
            seq![s]
        },
        None => seq![s],
    }
}

/// UTF-8 encoding distributes over concatenation.
pub proof fn lemma_encode_utf8_concat(a: Seq<char>, b: Seq<char>)
    ensures
        encode_utf8(a + b) == encode_utf8(a) + encode_utf8(b),
    decreases a.len(),
{
    if a.len() == 0 {
        assert(a + b =~= b);
    } else {
        assert((a + b).drop_first() =~= a.drop_first() + b);
        lemma_encode_utf8_concat(a.drop_first(), b);
        assert((a + b)[0] == a[0]);
        assert(encode_utf8(a + b) =~= encode_utf8(a) + encode_utf8(b));
    }
}

/// Splitting gives at least one piece.
pub proof fn lemma_split_text_not_empty(s: Seq<char>, sep: Seq<char>)
    ensures
        split_text(s, sep).len() > 0,
{
}

/// Whether two strings hold the same characters.
pub fn same_text(a: &str, b: &str) -> (r: bool)
    ensures
        r == (a@ == b@),
{
    let n = a.unicode_len();
    if n != b.unicode_len() {
        return false;
    }
    let mut i: usize = 0;
    while i < n
        invariant
            n == a@.len(),
            n == b@.len(),
            i <= n,
            forall|k: int| 0 <= k < i ==> a@[k] == b@[k],
        decreases n - i,
    {
        if a.get_char(i) != b.get_char(i) {
            return false;
        }
        i += 1;
    }
    proof {
        assert(a@ =~= b@);
    }
    true
}

/// The first index where `pat` occurs in `s`, if it does.
pub fn find_text(s: &str, pat: &str) -> (r: Option<usize>)
    ensures
        r matches Some(i) ==> first_occurrence(s@, pat@) == Some(i as int),
        r is None ==> first_occurrence(s@, pat@) is None,
{
    let n = s.unicode_len();
    let m = pat.unicode_len();
    if m > n {
        return None;
    }
    if m == 0 {
        proof {
            assert(s@.subrange(0, 0) =~= pat@);
        }
        return Some(0);
    }
    let mut i: usize = 0;
    while i <= n - m
        invariant
            n == s@.len(),
            m == pat@.len(),
            1 <= m <= n,
            i <= n - m + 1,
            occurrence_from(s@, pat@, i as int) == first_occurrence(s@, pat@),
        decreases n - m + 1 - i,
    {
        if same_text(s.substring_char(i, i + m), pat) {
            return Some(i);
        }
        i += 1;
    }
    None
}

/// Splits `s` at every occurrence of `sep`.
pub fn split_on(s: &str, sep: &str) -> (r: Vec<String>)
    requires
        sep@.len() > 0,
    ensures
        r@.map_values(|x: String| x@) == split_text(s@, sep@),
{
    let mut pieces: Vec<String> = Vec::new();
    let mut rest = s;
    loop
        invariant
            sep@.len() > 0,
            pieces@.map_values(|x: String| x@) + split_text(rest@, sep@) == split_text(s@, sep@),
        decreases rest@.len(),
    {
        let n = rest.unicode_len();
        match find_text(rest, sep) {
            Some(i) => {
                let m = sep.unicode_len();
                proof {
                    lemma_occurrence_from(rest@, sep@, 0);
                }
                let ghost before = pieces@.map_values(|x: String| x@);
                let head = rest.substring_char(0, i);
                pieces.push(head.to_owned());
                proof {
                    assert(pieces@.map_values(|x: String| x@) =~= before.push(head@));
                    assert(split_text(rest@, sep@) == seq![head@] + split_text(
                        rest@.skip(i + m),
                        sep@,
                    ));
                    assert(before.push(head@) =~= before + seq![head@]);
                    assert((before + seq![head@]) + split_text(rest@.skip(i + m), sep@) =~= before
                        + (seq![head@] + split_text(rest@.skip(i + m), sep@)));
                }
                rest = rest.substring_char(i + m, n);
            },
            None => {
                let ghost before = pieces@.map_values(|x: String| x@);
                pieces.push(rest.to_owned());
                proof {
                    assert(pieces@.map_values(|x: String| x@) =~= before.push(rest@));
                    assert(before + split_text(rest@, sep@) =~= before.push(rest@));
                }
                return pieces;
            },
        }
    }
}

/// The decimal digit for `d`.
pub open spec fn digit_char(d: nat) -> char {
    if d == 0 { '0' } else if d == 1 { '1' } else if d == 2 { '2' } else if d == 3 { '3' }
    else if d == 4 { '4' } else if d == 5 { '5' } else if d == 6 { '6' } else if d == 7 { '7' }
    else if d == 8 { '8' } else { '9' }
}

/// The value of a decimal digit (any other character counts as zero).
pub open spec fn digit_value(c: char) -> nat {
    if c == '1' { 1 } else if c == '2' { 2 } else if c == '3' { 3 } else if c == '4' { 4 }
    else if c == '5' { 5 } else if c == '6' { 6 } else if c == '7' { 7 } else if c == '8' { 8 }
    else if c == '9' { 9 } else { 0 }
}

/// The decimal numeral of `n`, without leading zeros.
pub open spec fn decimal(n: nat) -> Seq<char>
    decreases n,
{
    if n < 10 {
        seq![digit_char(n)]
    } else {
        decimal(n / 10).push(digit_char(n % 10))
    }
}

/// The number that a decimal numeral denotes.
pub open spec fn decimal_value(s: Seq<char>) -> nat
    decreases s.len(),
{
    if s.len() == 0 {
        0
    } else {
        decimal_value(s.drop_last()) * 10 + digit_value(s.last())
    }
}

/// Reading a decimal numeral back gives the number.
pub proof fn lemma_decimal_round_trip(n: nat)
    ensures
        decimal_value(decimal(n)) == n,
        decimal(n).len() > 0,
    decreases n,
{
    let d = n % 10;
    assert(digit_value(digit_char(d)) == d);
    if n >= 10 {
        lemma_decimal_round_trip(n / 10);
        assert(decimal(n).drop_last() =~= decimal(n / 10));
        assert(decimal(n).last() == digit_char(d));
        assert((n / 10) * 10 + d == n);
    } else {
        assert(decimal(n).drop_last() =~= Seq::<char>::empty());
        assert(decimal_value(Seq::<char>::empty()) == 0);
    }
}

/// The text of one decimal digit.
fn digit_text(d: u64) -> (r: &'static str)
    requires
        d < 10,
    ensures
        r@ == seq![digit_char(d as nat)],
{
    match d {
        0 => {
            proof {
                reveal_strlit("0");
                assert("0"@ =~= seq!['0']);
            }
            "0"
        },
        1 => {
            proof {
                reveal_strlit("1");
                assert("1"@ =~= seq!['1']);
            }
            "1"
        },
        2 => {
            proof {
                reveal_strlit("2");
                assert("2"@ =~= seq!['2']);
            }
            "2"
        },
        3 => {
            proof {
                reveal_strlit("3");
                assert("3"@ =~= seq!['3']);
            }
            "3"
        },
        4 => {
            proof {
                reveal_strlit("4");
                assert("4"@ =~= seq!['4']);
            }
            "4"
        },
        5 => {
            proof {
                reveal_strlit("5");
                assert("5"@ =~= seq!['5']);
            }
            "5"
        },
        6 => {
            proof {
                reveal_strlit("6");
                assert("6"@ =~= seq!['6']);
            }
            "6"
        },
        7 => {
            proof {
                reveal_strlit("7");
                assert("7"@ =~= seq!['7']);
            }
            "7"
        },
        8 => {
            proof {
                reveal_strlit("8");
                assert("8"@ =~= seq!['8']);
            }
            "8"
        },
        _ => {
            proof {
                reveal_strlit("9");
                assert("9"@ =~= seq!['9']);
            }
            "9"
        },
    }
}

/// The decimal numeral of `n`.
pub fn decimal_text(n: u64) -> (r: String)
    ensures
        r@ == decimal(n as nat),
    decreases n,
{
    if n < 10 {
        digit_text(n).to_owned()
    } else {
        let mut s = decimal_text(n / 10);
        s.append(digit_text(n % 10));
        s
    }
}

/// Where no character in `[i, k)` begins the pattern, the search from `i`
/// goes on from `k`.
pub proof fn lemma_occurrence_skips(s: Seq<char>, pat: Seq<char>, i: int, k: int)
    requires
        pat.len() > 0,
        0 <= i <= k <= s.len(),
        forall|j: int| i <= j < k ==> s[j] != pat[0],
    ensures
        occurrence_from(s, pat, i) == occurrence_from(s, pat, k),
    decreases k - i,
{
    if i < k {
        if i + pat.len() <= s.len() {
            assert(s.subrange(i, i + pat.len())[0] == s[i]);
        }
        lemma_occurrence_skips(s, pat, i + 1, k);
    }
}

/// A text without the separator's first character is one piece.
pub proof fn lemma_split_single(x: Seq<char>, sep: Seq<char>)
    requires
        sep.len() > 0,
        forall|j: int| 0 <= j < x.len() ==> x[j] != sep[0],
    ensures
        split_text(x, sep) == seq![x],
{
    lemma_occurrence_skips(x, sep, 0, x.len() as int);
}

/// Splitting `x`, the separator and `y`, where `x` holds no character that
/// begins the separator, gives `x` and then the pieces of `y`.
pub proof fn lemma_split_after(x: Seq<char>, sep: Seq<char>, y: Seq<char>)
    requires
        sep.len() > 0,
        forall|j: int| 0 <= j < x.len() ==> x[j] != sep[0],
    ensures
        split_text(x + sep + y, sep) == seq![x] + split_text(y, sep),
{
    let s = x + sep + y;
    lemma_occurrence_skips(s, sep, 0, x.len() as int);
    assert(s.subrange(x.len() as int, (x.len() + sep.len()) as int) =~= sep);
    assert(s.take(x.len() as int) =~= x);
    assert(s.skip((x.len() + sep.len()) as int) =~= y);
}

/// A decimal numeral holds digits only.
pub proof fn lemma_decimal_digits(n: nat)
    ensures
        forall|j: int| 0 <= j < decimal(n).len() ==> '0' <= #[trigger] decimal(n)[j] <= '9',
    decreases n,
{
    if n >= 10 {
        lemma_decimal_digits(n / 10);
        assert forall|j: int| 0 <= j < decimal(n).len() implies '0' <= #[trigger] decimal(n)[j]
            <= '9' by {
            if j < decimal(n / 10).len() {
                assert(decimal(n)[j] == decimal(n / 10)[j]);
            }
        }
    }
}

} // verus!
