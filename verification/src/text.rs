//! Character-level text utilities shared by the parsers of this crate.

use vstd::prelude::*;

verus! {

broadcast use vstd::string::group_string_axioms;

/// `String::push` appends one character at the end of the string.
pub assume_specification[ String::push ](s: &mut String, ch: char)
    ensures
        final(s)@ == old(s)@.push(ch),
;

/// `String::push_str` appends `string` at the end of the string.
pub assume_specification[ String::push_str ](s: &mut String, string: &str)
    ensures
        final(s)@ == old(s)@ + string@,
;

/// The characters of `s`, in order.
pub fn chars_of(s: &str) -> (v: Vec<char>)
    ensures
        v@ == s@,
{
    let mut it = s.chars();
    let mut v: Vec<char> = Vec::new();
    loop
        invariant
            vstd::std_specs::iter::IteratorSpec::obeys_prophetic_iter_laws(&it),
            v@ + vstd::std_specs::iter::IteratorSpec::remaining(&it) == s@,
            vstd::std_specs::iter::IteratorSpec::decrease(&it) is Some,
        ensures
            v@ == s@,
        decreases vstd::std_specs::iter::IteratorSpec::decrease(&it)->0,
    {
        match it.next() {
            Some(c) => {
                v.push(c);
            },
            None => {
                break;
            },
        }
    }
    v
}

} // verus!

verus! {

/// Unicode `White_Space`, the set of characters that `char::is_whitespace` accepts.
pub open spec fn is_space(c: char) -> bool {
    let u = c as u32;
    ||| 0x09 <= u <= 0x0d
    ||| u == 0x20
    ||| u == 0x85
    ||| u == 0xa0
    ||| u == 0x1680
    ||| 0x2000 <= u <= 0x200a
    ||| u == 0x2028
    ||| u == 0x2029
    ||| u == 0x202f
    ||| u == 0x205f
    ||| u == 0x3000
}

pub fn is_space_char(c: char) -> (b: bool)
    ensures
        b == is_space(c),
{
    let u = c as u32;
    (0x09 <= u && u <= 0x0d) || u == 0x20 || u == 0x85 || u == 0xa0 || u == 0x1680 || (0x2000
        <= u && u <= 0x200a) || u == 0x2028 || u == 0x2029 || u == 0x202f || u == 0x205f || u
        == 0x3000
}

/// `s` without its leading white space.
pub open spec fn trim_start(s: Seq<char>) -> Seq<char>
    decreases s.len(),
{
    if s.len() > 0 && is_space(s[0]) {
        trim_start(s.drop_first())
    } else {
        s
    }
}

/// `s` without its trailing white space.
pub open spec fn trim_end(s: Seq<char>) -> Seq<char>
    decreases s.len(),
{
    if s.len() > 0 && is_space(s.last()) {
        trim_end(s.drop_last())
    } else {
        s
    }
}

/// `s` without leading and trailing white space, as `str::trim` gives it.
pub open spec fn trim(s: Seq<char>) -> Seq<char> {
    trim_end(trim_start(s))
}

/// Whether `s` neither starts nor ends with white space.
pub open spec fn is_trimmed(s: Seq<char>) -> bool {
    s.len() == 0 || (!is_space(s[0]) && !is_space(s.last()))
}

proof fn lemma_trim_start(s: Seq<char>)
    ensures
        trim_start(s).len() == 0 || !is_space(trim_start(s)[0]),
    decreases s.len(),
{
    if s.len() > 0 && is_space(s[0]) {
        lemma_trim_start(s.drop_first());
    }
}

proof fn lemma_trim_end(s: Seq<char>)
    ensures
        trim_end(s).len() <= s.len(),
        trim_end(s) == s.take(trim_end(s).len() as int),
        trim_end(s).len() == 0 || !is_space(trim_end(s).last()),
    decreases s.len(),
{
    if s.len() > 0 && is_space(s.last()) {
        lemma_trim_end(s.drop_last());
        assert(s.drop_last().take(trim_end(s).len() as int) =~= s.take(trim_end(s).len() as int));
    } else {
        assert(s.take(s.len() as int) =~= s);
    }
}

/// Law: trimmed text neither starts nor ends with white space.
pub proof fn law_trim_is_trimmed(s: Seq<char>)
    ensures
        is_trimmed(trim(s)),
{
    lemma_trim_start(s);
    lemma_trim_end(trim_start(s));
    let t = trim_start(s);
    if trim(s).len() > 0 {
        assert(trim(s)[0] == t[0]);
    }
}

/// The bounds, inside `lo..hi`, of the trimmed text `v[lo..hi]`.
pub fn trim_range(v: &Vec<char>, lo: usize, hi: usize) -> (r: (usize, usize))
    requires
        lo <= hi <= v@.len(),
    ensures
        lo <= r.0 <= r.1 <= hi,
        v@.subrange(r.0 as int, r.1 as int) == trim(v@.subrange(lo as int, hi as int)),
{
    let mut a = lo;
    while a < hi && is_space_char(v[a])
        invariant
            lo <= a <= hi <= v@.len(),
            trim_start(v@.subrange(lo as int, hi as int)) == trim_start(
                v@.subrange(a as int, hi as int),
            ),
        decreases hi - a,
    {
        assert(v@.subrange(a as int, hi as int).drop_first() =~= v@.subrange(
            a + 1,
            hi as int,
        ));
        a = a + 1;
    }
    let mut b = hi;
    while b > a && is_space_char(v[b - 1])
        invariant
            lo <= a <= b <= hi <= v@.len(),
            trim(v@.subrange(lo as int, hi as int)) == trim_end(v@.subrange(a as int, b as int)),
        decreases b - a,
    {
        assert(v@.subrange(a as int, b as int).drop_last() =~= v@.subrange(
            a as int,
            b - 1,
        ));
        b = b - 1;
    }
    (a, b)
}

/// A new string holding `v[lo..hi]`.
pub fn string_of(v: &Vec<char>, lo: usize, hi: usize) -> (s: String)
    requires
        lo <= hi <= v@.len(),
    ensures
        s@ == v@.subrange(lo as int, hi as int),
{
    let mut s = String::new();
    let mut i = lo;
    while i < hi
        invariant
            lo <= i <= hi <= v@.len(),
            s@ == v@.subrange(lo as int, i as int),
        decreases hi - i,
    {
        s.push(v[i]);
        assert(v@.subrange(lo as int, i + 1) =~= v@.subrange(lo as int, i as int).push(v@[i as int]));
        i = i + 1;
    }
    s
}

/// Whether `v[lo..]` starts with `p`.
pub open spec fn has_prefix_at(s: Seq<char>, lo: int, p: Seq<char>) -> bool {
    lo + p.len() <= s.len() && s.subrange(lo, lo + p.len()) == p
}

pub fn starts_with_at(v: &Vec<char>, lo: usize, hi: usize, p: &str) -> (b: bool)
    requires
        lo <= hi <= v@.len(),
    ensures
        b == has_prefix_at(v@.subrange(lo as int, hi as int), 0, p@),
{
    let pv = chars_of(p);
    let n = pv.len();
    if n > hi - lo {
        return false;
    }
    let mut i: usize = 0;
    while i < n
        invariant
            lo <= hi <= v@.len(),
            pv@ == p@,
            n == pv@.len(),
            n <= hi - lo,
            i <= n,
            forall|j: int| 0 <= j < i ==> v@[lo + j] == pv@[j],
        decreases n - i,
    {
        if v[lo + i] != pv[i] {
            assert(v@.subrange(lo as int, hi as int).subrange(0, n as int)[i as int] != p@[i as int]);
            return false;
        }
        i = i + 1;
    }
    assert(v@.subrange(lo as int, hi as int).subrange(0, n as int) =~= p@);
    true
}

/// Whether `v[lo..hi]` is exactly `p`.
pub fn equals_at(v: &Vec<char>, lo: usize, hi: usize, p: &str) -> (b: bool)
    requires
        lo <= hi <= v@.len(),
    ensures
        b == (v@.subrange(lo as int, hi as int) == p@),
{
    let r = starts_with_at(v, lo, hi, p);
    let ghost sub = v@.subrange(lo as int, hi as int);
    if r {
        if p.unicode_len() == hi - lo {
            assert(sub.subrange(0, sub.len() as int) =~= sub);
            true
        } else {
            false
        }
    } else {
        proof {
            if sub == p@ {
                assert(sub.subrange(0, p@.len() as int) =~= sub);
            }
        }
        false
    }
}

/// The decimal digit character for `d < 10`.
pub open spec fn digit_char(d: nat) -> char {
    ((d + 48) as u8) as char
}

/// The decimal representation of `n`, as `Display` prints an unsigned integer.
pub open spec fn decimal(n: nat) -> Seq<char>
    decreases n,
{
    if n < 10 {
        seq![digit_char(n)]
    } else {
        decimal(n / 10).push(digit_char(n % 10))
    }
}

/// Appends the decimal representation of `n` to `out`.
pub fn push_decimal(out: &mut String, n: u128)
    ensures
        final(out)@ == old(out)@ + decimal(n as nat),
    decreases n,
{
    if n >= 10 {
        push_decimal(out, n / 10);
    }
    let d: u8 = (n % 10) as u8;
    out.push((d + 48) as char);
    assert(old(out)@ + decimal(n as nat) =~= final(out)@);
}

/// Whether `c` is an ASCII decimal digit.
pub open spec fn is_digit(c: char) -> bool {
    '0' <= c <= '9'
}

/// The value of a sequence of decimal digits.
pub open spec fn digits_value(s: Seq<char>) -> nat
    decreases s.len(),
{
    if s.len() == 0 {
        0
    } else {
        digits_value(s.drop_last()) * 10 + ((s.last() as u32) - 48) as nat
    }
}

/// The digits part of an unsigned number: the text after an optional leading `+`.
pub open spec fn unsigned_digits(s: Seq<char>) -> Seq<char> {
    if s.len() > 0 && s[0] == '+' {
        s.drop_first()
    } else {
        s
    }
}

/// Whether every character of `d` is a decimal digit.
pub open spec fn all_digits(d: Seq<char>) -> bool {
    forall|i: int| 0 <= i < d.len() ==> is_digit(#[trigger] d[i])
}

/// What `str::parse` gives for an unsigned integer type whose largest value is `max`:
/// an optional leading `+`, then one or more decimal digits whose value is at most `max`.
pub open spec fn parse_unsigned(s: Seq<char>, max: nat) -> Option<nat> {
    let d = unsigned_digits(s);
    if d.len() == 0 || !all_digits(d) || digits_value(d) > max {
        None
    } else {
        Some(digits_value(d))
    }
}

proof fn lemma_digits_value_grows(s: Seq<char>, c: char)
    requires
        is_digit(c),
    ensures
        digits_value(s.push(c)) >= digits_value(s) * 10,
        digits_value(s.push(c)) == digits_value(s) * 10 + ((c as u32) - 48) as nat,
{
    assert(s.push(c).drop_last() =~= s);
}

/// Parses `v[lo..hi]` as an unsigned integer no larger than `max`, as `str::parse` does.
pub fn parse_unsigned_at(v: &Vec<char>, lo: usize, hi: usize, max: u64) -> (r: Option<u64>)
    requires
        lo <= hi <= v@.len(),
    ensures
        r matches Some(n) ==> parse_unsigned(v@.subrange(lo as int, hi as int), max as nat)
            == Some(n as nat),
        r is None ==> parse_unsigned(v@.subrange(lo as int, hi as int), max as nat) is None,
{
    let ghost s = v@.subrange(lo as int, hi as int);
    let mut start = lo;
    if lo < hi && v[lo] == '+' {
        start = lo + 1;
    }
    let ghost d = v@.subrange(start as int, hi as int);
    assert(d =~= unsigned_digits(s));
    if start == hi {
        return None;
    }
    let mut acc: u64 = 0;
    let mut overflow = false;
    let mut i = start;
    while i < hi
        invariant
            lo <= start <= i <= hi <= v@.len(),
            d == v@.subrange(start as int, hi as int),
            s == v@.subrange(lo as int, hi as int),
            d == unsigned_digits(s),
            forall|j: int| start <= j < i ==> is_digit(v@[j]),
            !overflow ==> acc as nat == digits_value(v@.subrange(start as int, i as int)),
            !overflow ==> acc <= max,
            overflow ==> digits_value(v@.subrange(start as int, i as int)) > max,
        decreases hi - i,
    {
        let c = v[i];
        if !('0' <= c && c <= '9') {
            assert(d[i - start] == c);
            assert(!is_digit(d[i - start]));
            return None;
        }
        let ghost prev = v@.subrange(start as int, i as int);
        assert(v@.subrange(start as int, i + 1) =~= prev.push(c));
        proof {
            lemma_digits_value_grows(prev, c);
        }
        if !overflow {
            let dv: u64 = ((c as u32) - 48) as u64;
            match acc.checked_mul(10) {
                Some(m) => match m.checked_add(dv) {
                    Some(n) => {
                        if n > max {
                            overflow = true;
                        } else {
                            acc = n;
                        }
                    },
                    None => {
                        overflow = true;
                    },
                },
                None => {
                    overflow = true;
                },
            }
        } else {
            assert(digits_value(prev) * 10 >= digits_value(prev)) by (nonlinear_arith);
        }
        i = i + 1;
    }
    assert(v@.subrange(start as int, i as int) == d);
    if overflow {
        None
    } else {
        Some(acc)
    }
}

} // verus!

verus! {

/// Position of the first `c` in `s`, or `s.len()` when `c` does not occur.
pub open spec fn first_index(s: Seq<char>, c: char) -> nat
    decreases s.len(),
{
    if s.len() == 0 {
        0
    } else if s[0] == c {
        0
    } else {
        1 + first_index(s.drop_first(), c)
    }
}

pub proof fn lemma_first_index(s: Seq<char>, c: char, m: int)
    requires
        0 <= m <= s.len(),
        forall|j: int| 0 <= j < m ==> s[j] != c,
        m == s.len() || s[m] == c,
    ensures
        first_index(s, c) == m,
    decreases s.len(),
{
    if s.len() > 0 && m > 0 {
        lemma_first_index(s.drop_first(), c, m - 1);
    }
}

/// Position of the last `c` in `s`, or -1 when there is none.
pub open spec fn last_index(s: Seq<char>, c: char) -> int
    decreases s.len(),
{
    if s.len() == 0 {
        -1
    } else if s.last() == c {
        s.len() - 1
    } else {
        last_index(s.drop_last(), c)
    }
}

pub proof fn lemma_last_index_bounds(s: Seq<char>, c: char)
    ensures
        -1 <= last_index(s, c) < s.len(),
    decreases s.len(),
{
    if s.len() > 0 {
        lemma_last_index_bounds(s.drop_last(), c);
    }
}

pub proof fn lemma_last_index(s: Seq<char>, c: char, k: int)
    requires
        -1 <= k < s.len(),
        k >= 0 ==> s[k] == c,
        forall|j: int| k < j < s.len() ==> s[j] != c,
    ensures
        last_index(s, c) == k,
    decreases s.len(),
{
    if s.len() > 0 && k < s.len() - 1 {
        lemma_last_index(s.drop_last(), c, k);
    }
}

/// Position of the last `c` in `v[lo..hi]`, counted from `lo`.
pub fn find_last(v: &Vec<char>, lo: usize, hi: usize, c: char) -> (k: Option<usize>)
    requires
        lo <= hi <= v@.len(),
    ensures
        k matches Some(i) ==> lo <= i < hi && last_index(v@.subrange(lo as int, hi as int), c)
            == i - lo,
        k is None ==> last_index(v@.subrange(lo as int, hi as int), c) == -1,
{
    let ghost s = v@.subrange(lo as int, hi as int);
    let mut i = hi;
    while i > lo && v[i - 1] != c
        invariant
            lo <= i <= hi <= v@.len(),
            forall|j: int| i <= j < hi ==> v@[j] != c,
        decreases i,
    {
        i = i - 1;
    }
    proof {
        assert forall|j: int| i - lo <= j < s.len() && j >= 0 implies s[j] != c by {
            if j >= i - lo {
                assert(s[j] == v@[lo + j]);
            }
        }
    }
    if i == lo {
        proof {
            lemma_last_index(s, c, -1);
        }
        None
    } else {
        proof {
            assert(s[i - 1 - lo] == v@[i - 1]);
            lemma_last_index(s, c, i - 1 - lo);
        }
        Some(i - 1)
    }
}

/// A line without the carriage return that ends it.
pub open spec fn strip_cr(line: Seq<char>) -> Seq<char> {
    if line.len() > 0 && line.last() == '\r' {
        line.drop_last()
    } else {
        line
    }
}

/// The lines of `s`, as `str::lines` yields them: split at `\n`, a `\r` just before
/// a `\n` dropped, and no empty last line after a final line ending.
pub open spec fn lines(s: Seq<char>) -> Seq<Seq<char>>
    decreases s.len(),
{
    if s.len() == 0 {
        seq![]
    } else {
        let k = first_index(s, '\n');
        if k < s.len() {
            seq![strip_cr(s.take(k as int))] + lines(s.skip((k + 1) as int))
        } else {
            seq![s]
        }
    }
}

/// The line that starts at `pos`: it is `v[pos..r.0]`, and the next line starts at `r.1`.
pub fn next_line(v: &Vec<char>, pos: usize) -> (r: (usize, usize))
    requires
        pos < v@.len(),
    ensures
        pos <= r.0 <= r.1 <= v@.len(),
        pos < r.1,
        lines(v@.subrange(pos as int, v@.len() as int)) == seq![
            v@.subrange(pos as int, r.0 as int),
        ] + lines(v@.subrange(r.1 as int, v@.len() as int)),
{
    let n = v.len();
    let ghost s = v@.subrange(pos as int, n as int);
    let mut k = pos;
    while k < n && v[k] != '\n'
        invariant
            pos <= k <= n == v@.len(),
            forall|j: int| pos <= j < k ==> v@[j] != '\n',
        decreases n - k,
    {
        k = k + 1;
    }
    proof {
        assert forall|j: int| 0 <= j < k - pos implies s[j] != '\n' by {
            assert(s[j] == v@[pos + j]);
        }
        lemma_first_index(s, '\n', k - pos);
    }
    if k < n {
        let end = if k > pos && v[k - 1] == '\r' {
            k - 1
        } else {
            k
        };
        assert(strip_cr(s.take(k - pos)) =~= v@.subrange(pos as int, end as int));
        assert(s.skip(k - pos + 1) =~= v@.subrange(k + 1, n as int));
        (end, k + 1)
    } else {
        assert(v@.subrange(n as int, n as int) =~= Seq::<char>::empty());
        assert(lines(Seq::<char>::empty()) =~= Seq::<Seq<char>>::empty());
        assert(s =~= v@.subrange(pos as int, n as int));
        (n, n)
    }
}

} // verus!
