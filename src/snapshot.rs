//! The line-oriented snapshot format: the capacity in decimal on the first
//! line, then one `key:value` line per entry, least recently used first.
use vstd::prelude::*;
use vstd::string::*;

verus! {

/// Whether `c` is an ASCII decimal digit.
pub open spec fn is_digit(c: char) -> bool {
    c == '0' || c == '1' || c == '2' || c == '3' || c == '4' || c == '5' || c == '6' || c == '7'
        || c == '8' || c == '9'
}

/// The value of a decimal digit.
pub open spec fn digit_of(c: char) -> nat {
    if c == '0' {
        0
    } else if c == '1' {
        1
    } else if c == '2' {
        2
    } else if c == '3' {
        3
    } else if c == '4' {
        4
    } else if c == '5' {
        5
    } else if c == '6' {
        6
    } else if c == '7' {
        7
    } else if c == '8' {
        8
    } else {
        9
    }
}

/// The digit character for `d < 10`.
pub open spec fn digit_char(d: nat) -> char {
    if d == 0 {
        '0'
    } else if d == 1 {
        '1'
    } else if d == 2 {
        '2'
    } else if d == 3 {
        '3'
    } else if d == 4 {
        '4'
    } else if d == 5 {
        '5'
    } else if d == 6 {
        '6'
    } else if d == 7 {
        '7'
    } else if d == 8 {
        '8'
    } else {
        '9'
    }
}

/// The decimal notation of `n`, without leading zeros.
pub open spec fn decimal(n: nat) -> Seq<char>
    decreases n,
{
    if n < 10 {
        seq![digit_char(n)]
    } else {
        decimal(n / 10).push(digit_char(n % 10))
    }
}

/// The number that a string of digits denotes.
pub open spec fn digits_value(s: Seq<char>) -> nat
    decreases s.len(),
{
    if s.len() == 0 {
        0
    } else {
        digits_value(s.drop_last()) * 10 + digit_of(s.last())
    }
}

/// Every character is a digit.
pub open spec fn all_digits(s: Seq<char>) -> bool {
    forall|i: int| 0 <= i < s.len() ==> is_digit(#[trigger] s[i])
}

/// The digits of an unsigned decimal, after an optional leading `+`.
pub open spec fn unsigned_body(s: Seq<char>) -> Seq<char> {
    if s.len() > 0 && s[0] == '+' {
        s.drop_first()
    } else {
        s
    }
}

/// The `usize` that `s` denotes as an unsigned decimal: an optional `+`, then
/// at least one digit, with a value that fits.
pub open spec fn parse_usize(s: Seq<char>) -> Option<nat> {
    let b = unsigned_body(s);
    if b.len() > 0 && all_digits(b) && digits_value(b) <= usize::MAX {
        Some(digits_value(b))
    } else {
        None
    }
}

/// Whether `l` holds a `:`.
pub open spec fn has_colon(l: Seq<char>) -> bool {
    exists|p: int| 0 <= p < l.len() && l[p] == ':'
}

/// The position of the first `:` in `l`.
pub open spec fn first_colon(l: Seq<char>) -> int {
    choose|p: int| 0 <= p < l.len() && l[p] == ':' && forall|j: int| 0 <= j < p ==> l[j] != ':'
}

/// The key and value of an entry line, split at its first `:`.
pub open spec fn split_entry(l: Seq<char>) -> Option<(Seq<char>, Seq<char>)> {
    if has_colon(l) {
        Some((l.subrange(0, first_colon(l)), l.subrange(first_colon(l) + 1, l.len() as int)))
    } else {
        None
    }
}

/// The line that stores one entry.
pub open spec fn entry_line(k: Seq<char>, v: Seq<char>) -> Seq<char> {
    k + seq![':'] + v
}

/// The key/value pairs of entry lines in order; a line without `:` is skipped.
pub open spec fn parsed_pairs(lines: Seq<Seq<char>>) -> Seq<(Seq<char>, Seq<char>)>
    decreases lines.len(),
{
    if lines.len() == 0 {
        Seq::empty()
    } else {
        match split_entry(lines.last()) {
            Some(p) => parsed_pairs(lines.drop_last()).push(p),
            None => parsed_pairs(lines.drop_last()),
        }
    }
}

/// The snapshot lines of contents `s` (keys and value views) at capacity `cap`.
pub open spec fn snapshot_model(s: Seq<(Seq<char>, Seq<char>)>, cap: nat) -> Seq<Seq<char>> {
    seq![decimal(cap)] + s.map_values(|e: (Seq<char>, Seq<char>)| entry_line(e.0, e.1))
}

/// No key holds the separator.
pub open spec fn keys_colon_free(s: Seq<(Seq<char>, Seq<char>)>) -> bool {
    forall|i: int| 0 <= i < s.len() ==> !(#[trigger] s[i]).0.contains(':')
}

/// The first `:` of a line written for an entry is the one after its key.
pub proof fn lemma_split_entry_line(k: Seq<char>, v: Seq<char>)
    requires
        !k.contains(':'),
    ensures
        split_entry(entry_line(k, v)) == Some((k, v)),
{
    let l = entry_line(k, v);
    let p = k.len() as int;
    assert(l[p] == ':');
    assert forall|j: int| 0 <= j < p implies l[j] != ':' by {
        assert(l[j] == k[j]);
    }
    let q = first_colon(l);
    if q < p {
        assert(l[q] == k[q]);
    }
    assert(q == p);
    assert(l.subrange(0, p) =~= k);
    assert(l.subrange(p + 1, l.len() as int) =~= v);
}

/// Entry lines written for colon-free keys parse back to the same pairs.
pub proof fn lemma_parsed_pairs_of_entries(s: Seq<(Seq<char>, Seq<char>)>)
    requires
        keys_colon_free(s),
    ensures
        parsed_pairs(s.map_values(|e: (Seq<char>, Seq<char>)| entry_line(e.0, e.1))) == s,
    decreases s.len(),
{
    let lines = s.map_values(|e: (Seq<char>, Seq<char>)| entry_line(e.0, e.1));
    if s.len() > 0 {
        let t = s.drop_last();
        assert(keys_colon_free(t)) by {
            assert forall|i: int| 0 <= i < t.len() implies !(#[trigger] t[i]).0.contains(':') by {
                assert(t[i] == s[i]);
            }
        }
        lemma_parsed_pairs_of_entries(t);
        assert(lines.drop_last() =~= t.map_values(|e: (Seq<char>, Seq<char>)| entry_line(e.0, e.1)));
        assert(!s[s.len() - 1].0.contains(':'));
        lemma_split_entry_line(s.last().0, s.last().1);
        assert(t.push(s.last()) =~= s);
    }
}

/// The decimal notation of `n` is a string of digits that denotes `n`.
pub proof fn lemma_decimal_digits(n: nat)
    ensures
        decimal(n).len() > 0,
        all_digits(decimal(n)),
        digits_value(decimal(n)) == n,
        decimal(n)[0] != '+',
    decreases n,
{
    assert(digit_of(digit_char(n % 10)) == n % 10);
    assert(is_digit(digit_char(n % 10)));
    if n < 10 {
        assert(decimal(n).drop_last() =~= Seq::<char>::empty());
        assert(decimal(n).last() == digit_char(n));
        assert(digits_value(Seq::<char>::empty()) == 0);
        assert(digits_value(decimal(n)) == digits_value(decimal(n).drop_last()) * 10 + digit_of(decimal(n).last()));
    } else {
        lemma_decimal_digits(n / 10);
        let d = decimal(n);
        assert(d.drop_last() =~= decimal(n / 10));
        assert(d.last() == digit_char(n % 10));
        assert((n / 10) * 10 + n % 10 == n);
        assert(digits_value(d) == digits_value(decimal(n / 10)) * 10 + digit_of(d.last()));
        assert(all_digits(d)) by {
            assert forall|i: int| 0 <= i < d.len() implies is_digit(#[trigger] d[i]) by {
                if i < d.len() - 1 {
                    assert(d[i] == decimal(n / 10)[i]);
                }
            }
        }
    }
}

/// Parsing the decimal notation of a `usize` gives it back.
pub proof fn lemma_parse_decimal(n: nat)
    requires
        n <= usize::MAX,
    ensures
        parse_usize(decimal(n)) == Some(n),
{
    lemma_decimal_digits(n);
}

/// The one-character string of a digit.
fn digit_str(d: usize) -> (r: &'static str)
    requires
        d < 10,
    ensures
        r@ == seq![digit_char(d as nat)],
{
    if d == 0 {
        proof { reveal_strlit("0"); }
        "0"
    } else if d == 1 {
        proof { reveal_strlit("1"); }
        "1"
    } else if d == 2 {
        proof { reveal_strlit("2"); }
        "2"
    } else if d == 3 {
        proof { reveal_strlit("3"); }
        "3"
    } else if d == 4 {
        proof { reveal_strlit("4"); }
        "4"
    } else if d == 5 {
        proof { reveal_strlit("5"); }
        "5"
    } else if d == 6 {
        proof { reveal_strlit("6"); }
        "6"
    } else if d == 7 {
        proof { reveal_strlit("7"); }
        "7"
    } else if d == 8 {
        proof { reveal_strlit("8"); }
        "8"
    } else {
        proof { reveal_strlit("9"); }
        "9"
    }
}

/// The decimal notation of `n`.
pub fn decimal_string(n: usize) -> (r: String)
    ensures
        r@ == decimal(n as nat),
    decreases n,
{
    if n < 10 {
        String::from_str(digit_str(n))
    } else {
        let mut s = decimal_string(n / 10);
        s.append(digit_str(n % 10));
        assert(s@ =~= decimal(n as nat));
        s
    }
}

/// Whether `c` is a decimal digit, and its value.
fn digit_value(c: char) -> (r: Option<usize>)
    ensures
        is_digit(c) ==> r == Some(digit_of(c) as usize),
        !is_digit(c) ==> r is None,
{
    if c == '0' {
        Some(0)
    } else if c == '1' {
        Some(1)
    } else if c == '2' {
        Some(2)
    } else if c == '3' {
        Some(3)
    } else if c == '4' {
        Some(4)
    } else if c == '5' {
        Some(5)
    } else if c == '6' {
        Some(6)
    } else if c == '7' {
        Some(7)
    } else if c == '8' {
        Some(8)
    } else if c == '9' {
        Some(9)
    } else {
        None
    }
}

/// A prefix of a digit string denotes no more than the whole.
proof fn lemma_digits_prefix(s: Seq<char>, i: int)
    requires
        0 <= i <= s.len(),
    ensures
        digits_value(s.subrange(0, i)) <= digits_value(s),
    decreases s.len(),
{
    if i < s.len() {
        lemma_digits_prefix(s.drop_last(), i);
        assert(s.drop_last().subrange(0, i) =~= s.subrange(0, i));
    } else {
        assert(s.subrange(0, i) =~= s);
    }
}

/// Reads `s` as an unsigned decimal `usize`.
pub fn parse_usize_str(s: &str) -> (r: Option<usize>)
    ensures
        match r {
            Some(n) => parse_usize(s@) == Some(n as nat),
            None => parse_usize(s@) is None,
        },
{
    let len = s.unicode_len();
    let mut start: usize = 0;
    if len > 0 && s.get_char(0) == '+' {
        start = 1;
    }
    let ghost b = unsigned_body(s@);
    assert(b =~= s@.subrange(start as int, len as int));
    if start >= len {
        return None;
    }
    let mut value: usize = 0;
    let mut i: usize = start;
    assert(b.subrange(0, 0) =~= Seq::<char>::empty());
    while i < len
        invariant
            start <= i <= len,
            len == s@.len(),
            b == s@.subrange(start as int, len as int),
            b == unsigned_body(s@),
            all_digits(b.subrange(0, i - start)),
            value == digits_value(b.subrange(0, i - start)),
        decreases len - i,
    {
        let c = s.get_char(i);
        assert(c == b[i - start]);
        let ghost pre = b.subrange(0, i - start);
        let ghost next = b.subrange(0, i - start + 1);
        assert(next.drop_last() =~= pre);
        assert(next.last() == c);
        match digit_value(c) {
            None => {
                assert(!all_digits(b)) by {
                    assert(!is_digit(b[i - start]));
                }
                return None;
            },
            Some(d) => {
                if value > (usize::MAX - d) / 10 {
                    proof {
                        assert(value * 10 + d > usize::MAX) by (nonlinear_arith)
                            requires
                                value > (usize::MAX - d) / 10,
                                d < 10,
                        ;
                        assert(digits_value(next) == value * 10 + d);
                        if all_digits(b) {
                            lemma_digits_prefix(b, i - start + 1);
                        }
                    }
                    return None;
                }
                assert(value * 10 + d <= usize::MAX) by (nonlinear_arith)
                    requires
                        value <= (usize::MAX - d) / 10,
                        d < 10,
                ;
                value = value * 10 + d;
                assert(all_digits(next)) by {
                    assert forall|j: int| 0 <= j < next.len() implies is_digit(#[trigger] next[j]) by {
                        if j < pre.len() {
                            assert(next[j] == pre[j]);
                        }
                    }
                }
            },
        }
        i += 1;
    }
    assert(b.subrange(0, len - start) =~= b);
    Some(value)
}

} // verus!
