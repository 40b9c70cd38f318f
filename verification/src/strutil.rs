//! Small verified helpers over strings and characters that the rest of the
//! library builds on: equality, searching, and decimal parsing.

use vstd::prelude::*;

verus! {

/// Whether `c` is an ASCII decimal digit.
pub open spec fn is_digit(c: char) -> bool {
    48 <= c as u32 <= 57
}

/// The numeric value of a digit character.
pub open spec fn digit_val(c: char) -> int {
    c as u32 - 48
}

/// Whether every character of `s` is an ASCII decimal digit.
pub open spec fn all_digits(s: Seq<char>) -> bool {
    forall|i: int| 0 <= i < s.len() ==> is_digit(#[trigger] s[i])
}

/// The value of a digit string read in base ten, most significant first.
pub open spec fn dec_val(s: Seq<char>) -> int
    decreases s.len(),
{
    if s.len() == 0 {
        0
    } else {
        dec_val(s.drop_last()) * 10 + digit_val(s.last())
    }
}

/// What `str::parse::<u64>` accepts: an optional leading `+`, then one or
/// more digits, whose value fits in a `u64`.
pub open spec fn spec_parse_u64(s: Seq<char>) -> Option<u64> {
    let ds = if s.len() > 0 && s[0] == '+' {
        s.drop_first()
    } else {
        s
    };
    if ds.len() > 0 && all_digits(ds) && dec_val(ds) <= u64::MAX {
        Some(dec_val(ds) as u64)
    } else {
        None
    }
}

/// A digit string's value only grows when digits are appended.
proof fn lemma_dec_val_monotone(s: Seq<char>, n: int)
    requires
        0 <= n <= s.len(),
        all_digits(s),
    ensures
        dec_val(s.take(n)) <= dec_val(s),
    decreases s.len() - n,
{
    if n < s.len() {
        assert(s.take(n + 1).drop_last() =~= s.take(n));
        assert(s.take(n + 1).last() == s[n]);
        assert(all_digits(s.take(n)));
        lemma_dec_val_nonneg(s.take(n));
        assert(dec_val(s.take(n)) <= dec_val(s.take(n + 1)));
        lemma_dec_val_monotone(s, n + 1);
        assert(s.take(s.len() as int) =~= s);
    } else {
        assert(s.take(n) =~= s);
    }
}

/// Digit strings have non-negative value.
proof fn lemma_dec_val_nonneg(s: Seq<char>)
    requires
        all_digits(s),
    ensures
        dec_val(s) >= 0,
    decreases s.len(),
{
    if s.len() > 0 {
        assert(all_digits(s.drop_last()));
        lemma_dec_val_nonneg(s.drop_last());
    }
}

/// String equality by view.
pub fn str_eq(a: &str, b: &str) -> (r: bool)
    ensures
        r == (a@ == b@),
{
    let sa: String = a.to_owned();
    let sb: String = b.to_owned();
    sa == sb
}

/// Parses a whole string as a decimal `u64`, as `str::parse::<u64>` does.
pub fn parse_u64(s: &str) -> (r: Option<u64>)
    ensures
        r == spec_parse_u64(s@),
{
    let n = s.unicode_len();
    let mut i: usize = 0;
    if n > 0 && s.get_char(0) == '+' {
        i = 1;
    }
    let ghost ds: Seq<char> = if s@.len() > 0 && s@[0] == '+' {
        s@.drop_first()
    } else {
        s@
    };
    if i >= n {
        return None;
    }
    let start = i;
    let mut acc: u64 = 0;
    while i < n
        invariant
            start <= i <= n,
            n == s@.len(),
            start == (if s@.len() > 0 && s@[0] == '+' { 1int } else { 0int }),
            ds == (if s@.len() > 0 && s@[0] == '+' { s@.drop_first() } else { s@ }),
            ds =~= s@.subrange(start as int, n as int),
            all_digits(s@.subrange(start as int, i as int)),
            acc == dec_val(s@.subrange(start as int, i as int)),
        decreases n - i,
    {
        let c = s.get_char(i);
        let u = c as u32;
        if u < 48 || u > 57 {
            assert(!is_digit(ds[i - start]));
            return None;
        }
        let d: u64 = (u - 48) as u64;
        let next = match acc.checked_mul(10) {
            Some(t) => t.checked_add(d),
            None => None,
        };
        proof {
            assert(s@.subrange(start as int, i + 1).drop_last() =~= s@.subrange(
                start as int,
                i as int,
            ));
            assert(s@.subrange(start as int, i + 1).last() == s@[i as int]);
        }
        match next {
            Some(v) => {
                acc = v;
            },
            None => {
                // The value overflows already on this prefix, so the whole
                // digit string is out of range as well.
                proof {
                    assert(digit_val(s@[i as int]) == d);
                    assert(dec_val(s@.subrange(start as int, i + 1)) == acc * 10 + d);
                    assert(acc * 10 + d > u64::MAX);
                    assert(all_digits(ds) ==> dec_val(ds) > u64::MAX) by {
                        if all_digits(ds) {
                            assert(ds.take(i + 1 - start) =~= s@.subrange(start as int, i + 1));
                            lemma_dec_val_monotone(ds, i + 1 - start);
                        }
                    }
                    assert(spec_parse_u64(s@) is None);
                }
                return None;
            },
        }
        i = i + 1;
    }
    assert(ds =~= s@.subrange(start as int, n as int));
    Some(acc)
}

/// The index of the last occurrence of `c` in `s`, or `-1` when absent.
pub open spec fn last_index_of(s: Seq<char>, c: char) -> int
    decreases s.len(),
{
    if s.len() == 0 {
        -1
    } else if s.last() == c {
        s.len() - 1
    } else {
        last_index_of(s.drop_last(), c)
    }
}

/// The last occurrence found by `last_index_of` really is last, and in range.
pub proof fn lemma_last_index_of(s: Seq<char>, c: char)
    ensures
        last_index_of(s, c) >= 0 ==> {
            &&& last_index_of(s, c) < s.len()
            &&& s[last_index_of(s, c)] == c
            &&& forall|j: int| last_index_of(s, c) < j < s.len() ==> s[j] != c
        },
        last_index_of(s, c) < 0 ==> forall|j: int| 0 <= j < s.len() ==> s[j] != c,
    decreases s.len(),
{
    if s.len() > 0 && s.last() != c {
        lemma_last_index_of(s.drop_last(), c);
        assert forall|j: int| 0 <= j < s.len() - 1 implies s[j] == s.drop_last()[j] by {}
    }
}

/// Finds the last occurrence of `c` in `s`.
pub fn rfind_char(s: &str, c: char) -> (r: Option<usize>)
    ensures
        match r {
            Some(i) => i == last_index_of(s@, c),
            None => last_index_of(s@, c) == -1,
        },
{
    let n = s.unicode_len();
    let mut i = n;
    assert(s@.take(n as int) =~= s@);
    while i > 0
        invariant
            i <= n,
            n == s@.len(),
            last_index_of(s@, c) == last_index_of(s@.take(i as int), c),
        decreases i,
    {
        i = i - 1;
        let ch = s.get_char(i);
        proof {
            assert(s@.take(i + 1).last() == s@[i as int]);
            assert(s@.take(i + 1).drop_last() =~= s@.take(i as int));
        }
        if ch == c {
            return Some(i);
        }
    }
    None
}

/// The index of the first occurrence of `c` in `s`, or `-1` when absent.
pub open spec fn first_index_of(s: Seq<char>, c: char) -> int
    decreases s.len(),
{
    if s.len() == 0 {
        -1
    } else if s[0] == c {
        0
    } else if first_index_of(s.drop_first(), c) < 0 {
        -1
    } else {
        1 + first_index_of(s.drop_first(), c)
    }
}

/// The first occurrence found by `first_index_of` really is first, and in range.
pub proof fn lemma_first_index_of(s: Seq<char>, c: char)
    ensures
        first_index_of(s, c) >= 0 ==> {
            &&& first_index_of(s, c) < s.len()
            &&& s[first_index_of(s, c)] == c
            &&& forall|j: int| 0 <= j < first_index_of(s, c) ==> s[j] != c
        },
        first_index_of(s, c) < 0 ==> forall|j: int| 0 <= j < s.len() ==> s[j] != c,
    decreases s.len(),
{
    if s.len() > 0 && s[0] != c {
        lemma_first_index_of(s.drop_first(), c);
        assert forall|j: int| 1 <= j < s.len() implies s[j] == s.drop_first()[j - 1] by {}
    }
}

/// An occurrence with no earlier one is what `first_index_of` finds.
pub proof fn lemma_first_index_of_exact(s: Seq<char>, c: char, k: int)
    requires
        0 <= k <= s.len(),
        forall|j: int| 0 <= j < k ==> s[j] != c,
        k < s.len() ==> s[k] == c,
    ensures
        k < s.len() ==> first_index_of(s, c) == k,
        k == s.len() ==> first_index_of(s, c) == -1,
    decreases s.len(),
{
    if s.len() > 0 && s[0] != c {
        assert forall|j: int| 1 <= j < s.len() implies s[j] == s.drop_first()[j - 1] by {}
        lemma_first_index_of_exact(s.drop_first(), c, k - 1);
    }
}

/// Finds the first occurrence of `c` in `s`.
pub fn find_char(s: &str, c: char) -> (r: Option<usize>)
    ensures
        match r {
            Some(i) => i == first_index_of(s@, c),
            None => first_index_of(s@, c) == -1,
        },
{
    let n = s.unicode_len();
    let mut i: usize = 0;
    while i < n
        invariant
            i <= n,
            n == s@.len(),
            forall|m: int| 0 <= m < i ==> s@[m] != c,
        decreases n - i,
    {
        let ch = s.get_char(i);
        if ch == c {
            proof {
                lemma_first_index_of_exact(s@, c, i as int);
            }
            return Some(i);
        }
        i = i + 1;
    }
    proof {
        lemma_first_index_of_exact(s@, c, n as int);
    }
    None
}

/// The pieces of `s` between occurrences of `sep`; empty pieces are kept, so
/// there is always one piece more than there are separators.
pub open spec fn split_on(s: Seq<char>, sep: char) -> Seq<Seq<char>>
    decreases s.len(),
    via split_on_decreases
{
    let i = first_index_of(s, sep);
    if i < 0 {
        seq![s]
    } else {
        seq![s.take(i)] + split_on(s.skip(i + 1), sep)
    }
}

#[via_fn]
proof fn split_on_decreases(s: Seq<char>, sep: char) {
    lemma_first_index_of(s, sep);
}

/// Splits `s` at every occurrence of `sep`.
pub fn split_string(s: &str, sep: char) -> (r: Vec<String>)
    ensures
        r@.map_values(|t: String| t@) == split_on(s@, sep),
{
    let n = s.unicode_len();
    let mut out: Vec<String> = Vec::new();
    let mut start: usize = 0;
    let mut i: usize = 0;
    proof {
        assert(s@.skip(0) =~= s@);
        assert(out@.map_values(|t: String| t@) + split_on(s@, sep) =~= split_on(s@, sep));
    }
    while i < n
        invariant
            start <= i <= n,
            n == s@.len(),
            forall|m: int| start <= m < i ==> s@[m] != sep,
            split_on(s@, sep) =~= out@.map_values(|t: String| t@) + split_on(
                s@.skip(start as int),
                sep,
            ),
        decreases n - i,
    {
        let c = s.get_char(i);
        if c == sep {
            let piece = substr_to_string(s, start, i);
            proof {
                let suff = s@.skip(start as int);
                assert forall|m: int| 0 <= m < i - start implies suff[m] != sep by {
                    assert(suff[m] == s@[start + m]);
                }
                assert(suff[i - start] == s@[i as int]);
                lemma_first_index_of_exact(suff, sep, i - start);
                assert(suff.take(i - start) =~= s@.subrange(start as int, i as int));
                assert(suff.skip(i - start + 1) =~= s@.skip(i + 1));
                assert((out@.map_values(|t: String| t@)).push(piece@) =~= (out@.push(
                    piece,
                )).map_values(|t: String| t@));
            }
            out.push(piece);
            start = i + 1;
        }
        i = i + 1;
    }
    let piece = substr_to_string(s, start, n);
    proof {
        let suff = s@.skip(start as int);
        assert forall|m: int| 0 <= m < suff.len() implies suff[m] != sep by {
            assert(suff[m] == s@[start + m]);
        }
        lemma_first_index_of_exact(suff, sep, suff.len() as int);
        assert(suff =~= s@.subrange(start as int, n as int));
        assert((out@.map_values(|t: String| t@)).push(piece@) =~= (out@.push(piece)).map_values(
            |t: String| t@,
        ));
    }
    out.push(piece);
    proof {
        assert(out@.map_values(|t: String| t@) =~= split_on(s@, sep));
    }
    out
}

/// Copies the character range `[from, to)` of `s` into a fresh `String`.
pub fn substr_to_string(s: &str, from: usize, to: usize) -> (r: String)
    requires
        from <= to <= s@.len(),
    ensures
        r@ == s@.subrange(from as int, to as int),
{
    s.substring_char(from, to).to_owned()
}

/// Concatenates two string slices into a fresh `String`.
pub fn concat_strs(a: &str, b: &str) -> (r: String)
    ensures
        r@ == a@ + b@,
{
    a.to_owned().concat(b)
}

} // verus!
