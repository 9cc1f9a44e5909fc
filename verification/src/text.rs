use vstd::prelude::*;
use vstd::string::*;

verus! {

broadcast use vstd::string::group_string_axioms;

// ---------------------------------------------------------------------------
// Searching
// ---------------------------------------------------------------------------

/// `pat` occurs in `s` starting at index `i`.
pub open spec fn occurs_at(s: Seq<char>, pat: Seq<char>, i: int) -> bool {
    0 <= i && i + pat.len() <= s.len() && s.subrange(i, i + pat.len()) == pat
}

/// The first index `>= i` at which `pat` occurs in `s`.
pub open spec fn find_from(s: Seq<char>, pat: Seq<char>, i: int) -> Option<int>
    decreases s.len() + 1 - i,
{
    if i < 0 || i + pat.len() > s.len() {
        None
    } else if occurs_at(s, pat, i) {
        Some(i)
    } else {
        find_from(s, pat, i + 1)
    }
}

/// The first index at which `pat` occurs in `s`, as `str::find` reports it
/// (counted in characters).
pub open spec fn find(s: Seq<char>, pat: Seq<char>) -> Option<int> {
    find_from(s, pat, 0)
}

/// `pat` occurs somewhere in `s`.
pub open spec fn contains(s: Seq<char>, pat: Seq<char>) -> bool {
    find(s, pat) is Some
}

pub proof fn lemma_find_from_found(s: Seq<char>, pat: Seq<char>, i: int, m: int)
    requires
        0 <= i <= m,
        occurs_at(s, pat, m),
        forall|k: int| i <= k < m ==> !occurs_at(s, pat, k),
    ensures
        find_from(s, pat, i) == Some(m),
    decreases m - i,
{
    if i < m {
        lemma_find_from_found(s, pat, i + 1, m);
    }
}

pub proof fn lemma_find_from_absent(s: Seq<char>, pat: Seq<char>, i: int)
    requires
        0 <= i,
        forall|k: int| i <= k && k + pat.len() <= s.len() ==> !occurs_at(s, pat, k),
    ensures
        find_from(s, pat, i) is None,
    decreases s.len() + 1 - i,
{
    if i + pat.len() <= s.len() {
        lemma_find_from_absent(s, pat, i + 1);
    }
}

/// What `find_from` returns: the index of an occurrence, with none before it.
pub proof fn lemma_find_from_result(s: Seq<char>, pat: Seq<char>, i: int)
    requires
        0 <= i,
    ensures
        find_from(s, pat, i) matches Some(m) ==> {
            &&& i <= m
            &&& m + pat.len() <= s.len()
            &&& occurs_at(s, pat, m)
            &&& forall|k: int| i <= k < m ==> !occurs_at(s, pat, k)
        },
        find_from(s, pat, i) is None ==> forall|k: int| i <= k ==> !occurs_at(s, pat, k),
    decreases s.len() + 1 - i,
{
    if i + pat.len() <= s.len() && !occurs_at(s, pat, i) {
        lemma_find_from_result(s, pat, i + 1);
    }
}

/// Whether `pat` occurs in `text` at index `j`.
fn matches_at(text: &Vec<char>, j: usize, hi: usize, pat: &Vec<char>) -> (r: bool)
    requires
        j <= hi <= text@.len(),
    ensures
        r == (j + pat@.len() <= hi && occurs_at(text@, pat@, j as int)),
{
    if pat.len() > hi - j {
        return false;
    }
    let mut k: usize = 0;
    while k < pat.len()
        invariant
            j + pat@.len() <= hi <= text@.len(),
            k <= pat@.len(),
            forall|t: int| 0 <= t < k ==> text@[j + t] == pat@[t],
        decreases pat@.len() - k,
    {
        if text[j + k] != pat[k] {
            assert(text@.subrange(j as int, j + pat@.len())[k as int] != pat@[k as int]);
            return false;
        }
        k += 1;
    }
    assert(text@.subrange(j as int, j + pat@.len()) =~= pat@);
    true
}

/// The first occurrence of `pat` in `text[lo..hi]`, as an index into `text`.
pub fn find_in(text: &Vec<char>, lo: usize, hi: usize, pat: &Vec<char>) -> (r: Option<usize>)
    requires
        lo <= hi <= text@.len(),
    ensures
        match r {
            Some(k) => lo <= k && find(text@.subrange(lo as int, hi as int), pat@) == Some(k - lo),
            None => find(text@.subrange(lo as int, hi as int), pat@) is None,
        },
{
    let ghost sub = text@.subrange(lo as int, hi as int);
    let mut j: usize = lo;
    while j <= hi
        invariant
            lo <= j <= hi + 1,
            hi <= text@.len(),
            sub == text@.subrange(lo as int, hi as int),
            forall|k: int| 0 <= k < j - lo ==> !occurs_at(sub, pat@, k),
        decreases hi + 1 - j,
    {
        let here = matches_at(text, j, hi, pat);
        proof {
            if j + pat@.len() <= hi {
                assert(sub.subrange(j - lo, j - lo + pat@.len()) =~= text@.subrange(
                    j as int,
                    j + pat@.len(),
                ));
            }
        }
        if here {
            proof {
                lemma_find_from_found(sub, pat@, 0, j - lo);
            }
            return Some(j);
        }
        if j == hi {
            proof {
                lemma_find_from_absent(sub, pat@, 0);
            }
            return None;
        }
        j += 1;
    }
    proof {
        lemma_find_from_absent(sub, pat@, 0);
    }
    None
}

/// The characters of `s`, in order.
pub fn chars_of(s: &str) -> (v: Vec<char>)
    ensures
        v@ == s@,
{
    let mut v: Vec<char> = Vec::new();
    for c in it: s.chars()
        invariant
            v@ == it.seq().take(it.index() as int),
    {
        v.push(c);
    }
    assert(v@ =~= s@);
    v
}


// ---------------------------------------------------------------------------
// Character classes and runs
// ---------------------------------------------------------------------------

/// Unicode `White_Space`, the class that `char::is_whitespace` tests.
pub open spec fn is_white(c: char) -> bool {
    let u = c as u32;
    ||| 0x09 <= u <= 0x0d
    ||| u == 0x20
    ||| u == 0x85
    ||| u == 0xa0
    ||| u == 0x1680
    ||| 0x2000 <= u <= 0x200a
    ||| u == 0x2028
    ||| u == 0x2029
    ||| u == 0x202f
    ||| u == 0x205f
    ||| u == 0x3000
}

pub fn is_white_char(c: char) -> (r: bool)
    ensures
        r == is_white(c),
{
    let u = c as u32;
    (0x09 <= u && u <= 0x0d) || u == 0x20 || u == 0x85 || u == 0xa0 || u == 0x1680 || (0x2000
        <= u && u <= 0x200a) || u == 0x2028 || u == 0x2029 || u == 0x202f || u == 0x205f || u
        == 0x3000
}

pub open spec fn not_white(c: char) -> bool {
    !is_white(c)
}

/// The length of the longest prefix of `s` whose characters all satisfy `p`.
pub open spec fn prefix_len(s: Seq<char>, p: spec_fn(char) -> bool) -> nat
    decreases s.len(),
{
    if s.len() > 0 && p(s[0]) {
        1 + prefix_len(s.drop_first(), p)
    } else {
        0
    }
}

/// The length of the longest suffix of `s` whose characters all satisfy `p`.
pub open spec fn suffix_len(s: Seq<char>, p: spec_fn(char) -> bool) -> nat
    decreases s.len(),
{
    if s.len() > 0 && p(s.last()) {
        1 + suffix_len(s.drop_last(), p)
    } else {
        0
    }
}

pub proof fn lemma_prefix_len(s: Seq<char>, p: spec_fn(char) -> bool, i: int)
    requires
        0 <= i <= s.len(),
        forall|k: int| 0 <= k < i ==> p(s[k]),
        i == s.len() || !p(s[i]),
    ensures
        prefix_len(s, p) == i,
    decreases i,
{
    if i > 0 {
        lemma_prefix_len(s.drop_first(), p, i - 1);
    }
}

pub proof fn lemma_suffix_len(s: Seq<char>, p: spec_fn(char) -> bool, i: int)
    requires
        0 <= i <= s.len(),
        forall|k: int| i <= k < s.len() ==> p(s[k]),
        i == 0 || !p(s[i - 1]),
    ensures
        suffix_len(s, p) == s.len() - i,
    decreases s.len() - i,
{
    if i < s.len() {
        lemma_suffix_len(s.drop_last(), p, i);
    }
}

/// `s` with leading and trailing whitespace removed, as `str::trim` does.
pub open spec fn trim(s: Seq<char>) -> Seq<char> {
    let t = s.skip(prefix_len(s, |c: char| is_white(c)) as int);
    t.take(t.len() - suffix_len(t, |c: char| is_white(c)))
}

/// The first maximal run of non-whitespace characters in `s`, as the first item
/// of `str::split_whitespace`; `None` when `s` is all whitespace.
pub open spec fn first_word(s: Seq<char>) -> Option<Seq<char>> {
    let t = s.skip(prefix_len(s, |c: char| is_white(c)) as int);
    if t.len() == 0 {
        None
    } else {
        Some(t.take(prefix_len(t, |c: char| not_white(c)) as int))
    }
}

/// Index of the first non-whitespace character of `text[lo..hi]` (or `hi`).
pub fn skip_white(text: &Vec<char>, lo: usize, hi: usize) -> (r: usize)
    requires
        lo <= hi <= text@.len(),
    ensures
        lo <= r <= hi,
        r - lo == prefix_len(text@.subrange(lo as int, hi as int), |c: char| is_white(c)),
{
    let ghost sub = text@.subrange(lo as int, hi as int);
    let mut i = lo;
    while i < hi && is_white_char(text[i])
        invariant
            lo <= i <= hi <= text@.len(),
            sub == text@.subrange(lo as int, hi as int),
            forall|k: int| 0 <= k < i - lo ==> is_white(sub[k]),
        decreases hi - i,
    {
        i += 1;
    }
    proof {
        lemma_prefix_len(sub, |c: char| is_white(c), i - lo);
    }
    i
}

/// Index of the first whitespace character of `text[lo..hi]` (or `hi`).
pub fn skip_word(text: &Vec<char>, lo: usize, hi: usize) -> (r: usize)
    requires
        lo <= hi <= text@.len(),
    ensures
        lo <= r <= hi,
        r - lo == prefix_len(text@.subrange(lo as int, hi as int), |c: char| not_white(c)),
{
    let ghost sub = text@.subrange(lo as int, hi as int);
    let mut i = lo;
    while i < hi && !is_white_char(text[i])
        invariant
            lo <= i <= hi <= text@.len(),
            sub == text@.subrange(lo as int, hi as int),
            forall|k: int| 0 <= k < i - lo ==> not_white(sub[k]),
        decreases hi - i,
    {
        i += 1;
    }
    proof {
        lemma_prefix_len(sub, |c: char| not_white(c), i - lo);
    }
    i
}

/// Bounds of `trim(text[lo..hi])` inside `text`.
pub fn trim_bounds(text: &Vec<char>, lo: usize, hi: usize) -> (r: (usize, usize))
    requires
        lo <= hi <= text@.len(),
    ensures
        lo <= r.0 <= r.1 <= hi,
        text@.subrange(r.0 as int, r.1 as int) == trim(text@.subrange(lo as int, hi as int)),
{
    let ghost sub = text@.subrange(lo as int, hi as int);
    let start = skip_white(text, lo, hi);
    let ghost t = sub.skip(start - lo);
    assert(t =~= text@.subrange(start as int, hi as int));
    let mut end = hi;
    while end > start && is_white_char(text[end - 1])
        invariant
            lo <= start <= end <= hi <= text@.len(),
            t == text@.subrange(start as int, hi as int),
            forall|k: int| end - start <= k < t.len() ==> is_white(t[k]),
        decreases end,
    {
        end -= 1;
    }
    proof {
        lemma_suffix_len(t, |c: char| is_white(c), end - start);
        assert(t.take(end - start) =~= text@.subrange(start as int, end as int));
    }
    (start, end)
}

/// The bounds of `first_word(text[lo..hi])` inside `text`.
pub fn first_word_bounds(text: &Vec<char>, lo: usize, hi: usize) -> (r: Option<(usize, usize)>)
    requires
        lo <= hi <= text@.len(),
    ensures
        match r {
            Some((a, b)) => lo <= a <= b <= hi && first_word(text@.subrange(lo as int, hi as int))
                == Some(text@.subrange(a as int, b as int)),
            None => first_word(text@.subrange(lo as int, hi as int)) is None,
        },
{
    let ghost sub = text@.subrange(lo as int, hi as int);
    let start = skip_white(text, lo, hi);
    let ghost t = sub.skip(start - lo);
    assert(t =~= text@.subrange(start as int, hi as int));
    if start == hi {
        return None;
    }
    let end = skip_word(text, start, hi);
    assert(t.take(end - start) =~= text@.subrange(start as int, end as int));
    Some((start, end))
}


// ---------------------------------------------------------------------------
// Splitting
// ---------------------------------------------------------------------------

/// `s` without one trailing carriage return.
pub open spec fn strip_cr(s: Seq<char>) -> Seq<char> {
    if s.len() > 0 && s.last() == '\r' {
        s.drop_last()
    } else {
        s
    }
}

/// The lines of `s`, as `str::lines` yields them: split at `'\n'`, a `'\r'`
/// right before a `'\n'` dropped, and no empty line after a final `'\n'`.
pub open spec fn lines(s: Seq<char>) -> Seq<Seq<char>>
    decreases s.len(),
{
    if s.len() == 0 {
        seq![]
    } else {
        match find(s, seq!['\n']) {
            Some(i) => {
                proof {
                    lemma_find_from_result(s, seq!['\n'], 0);
                }
                seq![strip_cr(s.take(i))] + lines(s.skip(i + 1))
            },
            None => seq![s],
        }
    }
}

/// The pieces of `s` between occurrences of `c`, as `str::split` yields them
/// (always at least one piece).
pub open spec fn split_on(s: Seq<char>, c: char) -> Seq<Seq<char>>
    decreases s.len(),
{
    match find(s, seq![c]) {
        Some(i) => {
            proof {
                lemma_find_from_result(s, seq![c], 0);
            }
            seq![s.take(i)] + split_on(s.skip(i + 1), c)
        },
        None => seq![s],
    }
}

pub proof fn lemma_split_on_nonempty(s: Seq<char>, c: char)
    ensures
        split_on(s, c).len() >= 1,
{
}

/// The first occurrence of `c` in `text[lo..hi]`, as an index into `text`.
pub fn find_char_in(text: &Vec<char>, lo: usize, hi: usize, c: char) -> (r: Option<usize>)
    requires
        lo <= hi <= text@.len(),
    ensures
        match r {
            Some(k) => lo <= k < hi && find(text@.subrange(lo as int, hi as int), seq![c]) == Some(
                k - lo,
            ) && text@[k as int] == c,
            None => find(text@.subrange(lo as int, hi as int), seq![c]) is None,
        },
{
    let ghost sub = text@.subrange(lo as int, hi as int);
    let mut j: usize = lo;
    while j < hi
        invariant
            lo <= j <= hi <= text@.len(),
            sub == text@.subrange(lo as int, hi as int),
            forall|k: int| 0 <= k < j - lo ==> !occurs_at(sub, seq![c], k),
        decreases hi - j,
    {
        proof {
            assert(sub.subrange(j - lo, j - lo + 1) =~= seq![text@[j as int]]);
        }
        if text[j] == c {
            proof {
                lemma_find_from_found(sub, seq![c], 0, j - lo);
            }
            return Some(j);
        }
        assert(seq![text@[j as int]][0] != seq![c][0]);
        j += 1;
    }
    proof {
        lemma_find_from_absent(sub, seq![c], 0);
    }
    None
}

// ---------------------------------------------------------------------------
// Decimal numbers
// ---------------------------------------------------------------------------

pub open spec fn is_digit(c: char) -> bool {
    '0' <= c <= '9'
}

pub open spec fn digit_value(c: char) -> nat {
    (c as nat - '0' as nat) as nat
}

/// The value of a string of decimal digits.
pub open spec fn digits_value(s: Seq<char>) -> nat
    decreases s.len(),
{
    if s.len() == 0 {
        0
    } else {
        digits_value(s.drop_last()) * 10 + digit_value(s.last())
    }
}

pub open spec fn all_digits(s: Seq<char>) -> bool {
    forall|i: int| 0 <= i < s.len() ==> is_digit(#[trigger] s[i])
}

/// `s` without one leading `'+'`.
pub open spec fn unsigned_digits(s: Seq<char>) -> Seq<char> {
    if s.len() > 0 && s[0] == '+' {
        s.drop_first()
    } else {
        s
    }
}

/// The unsigned integer that `s` denotes, as `str::parse` reads an unsigned
/// integer type whose largest value is `max`: an optional `'+'`, then one or
/// more decimal digits, of value at most `max`.
pub open spec fn parse_unsigned(s: Seq<char>, max: nat) -> Option<nat> {
    let d = unsigned_digits(s);
    if d.len() > 0 && all_digits(d) && digits_value(d) <= max {
        Some(digits_value(d))
    } else {
        None
    }
}

/// The character of a decimal digit.
pub open spec fn digit_char(d: nat) -> char {
    if d == 0 {
        '0'
    } else if d == 1 {
        '1'
    } else if d == 2 {
        '2'
    } else if d == 3 {
        '3'
    } else if d == 4 {
        '4'
    } else if d == 5 {
        '5'
    } else if d == 6 {
        '6'
    } else if d == 7 {
        '7'
    } else if d == 8 {
        '8'
    } else {
        '9'
    }
}

/// The decimal numeral of `n`, without leading zeros.
pub open spec fn decimal(n: nat) -> Seq<char>
    decreases n,
{
    if n < 10 {
        seq![digit_char(n)]
    } else {
        decimal(n / 10).push(digit_char(n % 10))
    }
}

proof fn lemma_digit_char(d: nat)
    requires
        d < 10,
    ensures
        is_digit(digit_char(d)),
        digit_value(digit_char(d)) == d,
{
}

/// A decimal numeral is a non-empty string of digits that denotes its number.
pub proof fn lemma_decimal(n: nat)
    ensures
        decimal(n).len() > 0,
        all_digits(decimal(n)),
        digits_value(decimal(n)) == n,
    decreases n,
{
    lemma_digit_char(n % 10);
    if n < 10 {
        assert(decimal(n).drop_last() =~= Seq::<char>::empty());
        assert(digits_value(Seq::<char>::empty()) == 0);
        assert(n % 10 == n);
    } else {
        lemma_decimal(n / 10);
        let d = decimal(n);
        assert(n == (n / 10) * 10 + n % 10) by (nonlinear_arith);
        assert(d.drop_last() =~= decimal(n / 10));
        assert forall|i: int| 0 <= i < d.len() implies is_digit(#[trigger] d[i]) by {
            if i < d.len() - 1 {
                assert(d[i] == decimal(n / 10)[i]);
            }
        }
    }
}

pub proof fn lemma_digits_value_prefix(s: Seq<char>, k: int)
    requires
        0 <= k <= s.len(),
        all_digits(s),
    ensures
        digits_value(s.take(k)) <= digits_value(s),
    decreases s.len() - k,
{
    if k < s.len() {
        lemma_digits_value_prefix(s, k + 1);
        assert(s.take(k + 1).drop_last() =~= s.take(k));
    } else {
        assert(s.take(k) =~= s);
    }
}

/// Reads `text[lo..hi]` as `parse_unsigned` does, with values up to `max`.
pub fn parse_unsigned_in(text: &Vec<char>, lo: usize, hi: usize, max: u64) -> (r: Option<u64>)
    requires
        lo <= hi <= text@.len(),
    ensures
        match r {
            Some(v) => parse_unsigned(text@.subrange(lo as int, hi as int), max as nat) == Some(
                v as nat,
            ),
            None => parse_unsigned(text@.subrange(lo as int, hi as int), max as nat) is None,
        },
{
    let ghost sub = text@.subrange(lo as int, hi as int);
    let mut start = lo;
    if lo < hi && text[lo] == '+' {
        start = lo + 1;
    }
    let ghost d = unsigned_digits(sub);
    assert(d =~= text@.subrange(start as int, hi as int));
    if start == hi {
        return None;
    }
    let mut value: u64 = 0;
    let mut i = start;
    while i < hi
        invariant
            lo <= start <= i <= hi <= text@.len(),
            d == text@.subrange(start as int, hi as int),
            sub == text@.subrange(lo as int, hi as int),
            d == unsigned_digits(sub),
            all_digits(d.take(i - start)),
            value as nat == digits_value(d.take(i - start)),
            value <= max,
        decreases hi - i,
    {
        let c = text[i];
        if !('0' <= c && c <= '9') {
            assert(d[i - start] == c);
            assert(!is_digit(d[i - start]));
            return None;
        }
        let digit = (c as u32 - '0' as u32) as u64;
        assert(d.take(i - start + 1).drop_last() =~= d.take(i - start));
        assert(d.take(i - start + 1).last() == c);
        if value > max / 10 {
            proof {
                assert(value * 10 + digit > max) by (nonlinear_arith)
                    requires
                        value > max / 10,
                ;
                if all_digits(d) {
                    lemma_digits_value_prefix(d, i - start + 1);
                }
            }
            return None;
        }
        assert(value * 10 <= max) by (nonlinear_arith)
            requires
                value <= max / 10,
        ;
        let tens = value * 10;
        if digit > max - tens {
            proof {
                if all_digits(d) {
                    lemma_digits_value_prefix(d, i - start + 1);
                }
            }
            return None;
        }
        value = tens + digit;
        i += 1;
        proof {
            assert forall|t: int| 0 <= t < i - start implies is_digit(#[trigger] d.take(i - start)[t]) by {
                if t < i - start - 1 {
                    assert(d.take(i - start)[t] == d.take(i - start - 1)[t]);
                }
            }
        }
    }
    assert(d.take(i - start) =~= d);
    Some(value)
}


// ---------------------------------------------------------------------------
// Order
// ---------------------------------------------------------------------------

/// Lexicographic order on character sequences, by code point. On the UTF-8
/// encodings this is the byte order that `Ord for String` uses.
pub open spec fn text_le(a: Seq<char>, b: Seq<char>) -> bool
    decreases a.len(),
{
    if a.len() == 0 {
        true
    } else if b.len() == 0 {
        false
    } else if a[0] != b[0] {
        a[0] < b[0]
    } else {
        text_le(a.drop_first(), b.drop_first())
    }
}

pub proof fn lemma_text_le_reflexive(a: Seq<char>)
    ensures
        text_le(a, a),
    decreases a.len(),
{
    if a.len() > 0 {
        lemma_text_le_reflexive(a.drop_first());
    }
}

pub proof fn lemma_text_le_antisymmetric(a: Seq<char>, b: Seq<char>)
    requires
        text_le(a, b),
        text_le(b, a),
    ensures
        a == b,
    decreases a.len(),
{
    if a.len() > 0 && b.len() > 0 {
        if a[0] == b[0] {
            lemma_text_le_antisymmetric(a.drop_first(), b.drop_first());
            assert(a =~= seq![a[0]] + a.drop_first());
            assert(b =~= seq![b[0]] + b.drop_first());
        } else {
        }
    } else {
        assert(a =~= b);
    }
}

pub proof fn lemma_text_le_transitive(a: Seq<char>, b: Seq<char>, c: Seq<char>)
    requires
        text_le(a, b),
        text_le(b, c),
    ensures
        text_le(a, c),
    decreases a.len(),
{
    if a.len() > 0 && b.len() > 0 && c.len() > 0 && a[0] == b[0] && b[0] == c[0] {
        lemma_text_le_transitive(a.drop_first(), b.drop_first(), c.drop_first());
    }
}

pub proof fn lemma_text_le_total(a: Seq<char>, b: Seq<char>)
    ensures
        text_le(a, b) || text_le(b, a),
    decreases a.len(),
{
    if a.len() > 0 && b.len() > 0 && a[0] == b[0] {
        lemma_text_le_total(a.drop_first(), b.drop_first());
    } else if a.len() > 0 && b.len() > 0 {
    }
}

/// `text_le` is a total order.
pub proof fn lemma_text_le_total_ordering()
    ensures
        vstd::relations::total_ordering(|a: Seq<char>, b: Seq<char>| text_le(a, b)),
{
    assert forall|a: Seq<char>| #[trigger] text_le(a, a) by {
        lemma_text_le_reflexive(a);
    }
    assert forall|a: Seq<char>, b: Seq<char>| #[trigger] text_le(a, b) && #[trigger] text_le(b, a) implies a == b by {
        lemma_text_le_antisymmetric(a, b);
    }
    assert forall|a: Seq<char>, b: Seq<char>, c: Seq<char>| #[trigger] text_le(a, b) && #[trigger] text_le(b, c) implies text_le(a, c) by {
        lemma_text_le_transitive(a, b, c);
    }
    assert forall|a: Seq<char>, b: Seq<char>| #[trigger] text_le(a, b) || #[trigger] text_le(b, a) by {
        lemma_text_le_total(a, b);
    }
}

/// Compares two character sequences by `text_le`.
pub fn text_le_exec(a: &Vec<char>, b: &Vec<char>) -> (r: bool)
    ensures
        r == text_le(a@, b@),
{
    let mut i: usize = 0;
    assert(a@.skip(0) =~= a@);
    assert(b@.skip(0) =~= b@);
    while i < a.len() && i < b.len() && a[i] == b[i]
        invariant
            i <= a@.len(),
            i <= b@.len(),
            text_le(a@, b@) == text_le(a@.skip(i as int), b@.skip(i as int)),
        decreases a@.len() - i,
    {
        assert(a@.skip(i as int).drop_first() =~= a@.skip(i + 1));
        assert(b@.skip(i as int).drop_first() =~= b@.skip(i + 1));
        i += 1;
    }
    if i == a.len() {
        true
    } else if i == b.len() {
        false
    } else {
        assert(a@.skip(i as int)[0] == a@[i as int]);
        assert(b@.skip(i as int)[0] == b@[i as int]);
        a[i] < b[i]
    }
}


// ---------------------------------------------------------------------------
// Strings
// ---------------------------------------------------------------------------

/// Whether `a` and `b` hold the same characters.
pub fn same_text(a: &str, b: &str) -> (r: bool)
    ensures
        r == (a@ == b@),
{
    let x = chars_of(a);
    let y = chars_of(b);
    if x.len() != y.len() {
        return false;
    }
    let mut i: usize = 0;
    while i < x.len()
        invariant
            x@ == a@,
            y@ == b@,
            x@.len() == y@.len(),
            i <= x@.len(),
            forall|k: int| 0 <= k < i ==> x@[k] == y@[k],
        decreases x@.len() - i,
    {
        if x[i] != y[i] {
            return false;
        }
        i += 1;
    }
    assert(x@ =~= y@);
    true
}

/// A new `String` holding the characters `from..to` of `s`.
pub fn string_of_range(s: &str, from: usize, to: usize) -> (r: String)
    requires
        from <= to <= s@.len(),
    ensures
        r@ == s@.subrange(from as int, to as int),
{
    String::from_str(s.substring_char(from, to))
}

/// `s` followed by `t`, as a new `String`.
pub fn join2(s: &str, t: &str) -> (r: String)
    ensures
        r@ == s@ + t@,
{
    let mut r = String::from_str(s);
    r.append(t);
    r
}

} // verus!
