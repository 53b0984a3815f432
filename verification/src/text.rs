//! Character-level string utilities: lexicographic order, substring
//! search, whitespace and digit classification, decimal rendering, and
//! joining. Everything here is stated over `Seq<char>` views.

use vstd::prelude::*;

verus! {

/// Strict lexicographic order on character sequences by code point,
/// the order `str` comparison uses.
pub open spec fn lex_lt(a: Seq<char>, b: Seq<char>) -> bool
    decreases a.len(),
{
    if b.len() == 0 {
        false
    } else if a.len() == 0 {
        true
    } else if (a[0] as int) < (b[0] as int) {
        true
    } else if (b[0] as int) < (a[0] as int) {
        false
    } else {
        lex_lt(a.drop_first(), b.drop_first())
    }
}

/// Lexicographic order is total: two sequences compare one way, the
/// other way, or are equal.
pub proof fn lemma_lex_lt_total(a: Seq<char>, b: Seq<char>)
    ensures
        lex_lt(a, b) || lex_lt(b, a) || a == b,
    decreases a.len(),
{
    if b.len() == 0 {
        if a.len() == 0 {
            assert(a =~= b);
        }
    } else if a.len() == 0 {
    } else if (a[0] as int) < (b[0] as int) {
    } else if (b[0] as int) < (a[0] as int) {
    } else {
        lemma_lex_lt_total(a.drop_first(), b.drop_first());
        if a.drop_first() == b.drop_first() {
            assert(a[0] == b[0]);
            assert(a.drop_first().len() == b.drop_first().len());
            assert(a.len() == b.len());
            assert forall|j: int| 0 <= j < a.len() implies a[j] == b[j] by {
                if j > 0 {
                    assert(a[j] == a.drop_first()[j - 1]);
                    assert(b[j] == b.drop_first()[j - 1]);
                }
            }
            assert(a =~= b);
        }
    }
}

/// Strict lexicographic order is transitive.
pub proof fn lemma_lex_lt_trans(a: Seq<char>, b: Seq<char>, c: Seq<char>)
    requires
        lex_lt(a, b),
        lex_lt(b, c),
    ensures
        lex_lt(a, c),
    decreases a.len(),
{
    if c.len() == 0 {
    } else if b.len() == 0 {
    } else if a.len() == 0 {
    } else {
        if (a[0] as int) < (b[0] as int) {
            if (b[0] as int) < (c[0] as int) {
            } else {
                assert(b[0] == c[0]);
            }
        } else {
            assert(a[0] == b[0]);
            if (b[0] as int) < (c[0] as int) {
            } else {
                assert(b[0] == c[0]);
                lemma_lex_lt_trans(a.drop_first(), b.drop_first(), c.drop_first());
            }
        }
    }
}

/// No sequence precedes itself.
pub proof fn lemma_lex_lt_irrefl(a: Seq<char>)
    ensures
        !lex_lt(a, a),
    decreases a.len(),
{
    if a.len() > 0 {
        lemma_lex_lt_irrefl(a.drop_first());
    }
}

/// Lexicographic comparison looks only at the part after a common prefix.
pub proof fn lemma_lex_lt_common_prefix(a: Seq<char>, b: Seq<char>, i: int)
    requires
        0 <= i <= a.len(),
        i <= b.len(),
        forall|j: int| 0 <= j < i ==> a[j] == b[j],
    ensures
        lex_lt(a, b) == lex_lt(a.skip(i), b.skip(i)),
    decreases i,
{
    if i == 0 {
        assert(a.skip(0) =~= a);
        assert(b.skip(0) =~= b);
    } else {
        assert(a[0] == b[0]);
        lemma_lex_lt_common_prefix(a.drop_first(), b.drop_first(), i - 1);
        assert(a.drop_first().skip(i - 1) =~= a.skip(i));
        assert(b.drop_first().skip(i - 1) =~= b.skip(i));
    }
}

/// Compares two strings in lexicographic code-point order.
pub fn str_lex_lt(a: &str, b: &str) -> (r: bool)
    ensures
        r == lex_lt(a@, b@),
{
    let alen = a.unicode_len();
    let blen = b.unicode_len();
    let mut i: usize = 0;
    loop
        invariant
            0 <= i <= alen,
            i <= blen,
            alen == a@.len(),
            blen == b@.len(),
            forall|j: int| 0 <= j < i ==> a@[j] == b@[j],
        ensures
            i >= alen || i >= blen,
        decreases alen - i,
    {
        if i >= alen || i >= blen {
            break;
        }
        let ca = a.get_char(i);
        let cb = b.get_char(i);
        if (ca as u32) < (cb as u32) {
            proof {
                lemma_lex_lt_common_prefix(a@, b@, i as int);
            }
            return true;
        }
        if (cb as u32) < (ca as u32) {
            proof {
                lemma_lex_lt_common_prefix(a@, b@, i as int);
            }
            return false;
        }
        assert(a@[i as int] == b@[i as int]);
        i = i + 1;
    }
    proof {
        lemma_lex_lt_common_prefix(a@, b@, i as int);
    }
    alen < blen
}

/// The needle `n` occurs in `h` starting at position `i`.
pub open spec fn match_at(h: Seq<char>, n: Seq<char>, i: int) -> bool {
    0 <= i && i + n.len() <= h.len() && h.subrange(i, i + n.len() as int) == n
}

/// Position of the first occurrence of `n` in `h`, if any.
pub open spec fn find_sub_spec(h: Seq<char>, n: Seq<char>) -> Option<int>
    decreases h.len(),
{
    if match_at(h, n, 0) {
        Some(0 as int)
    } else if h.len() == 0 {
        None
    } else {
        match find_sub_spec(h.drop_first(), n) {
            Some(i) => Some(i + 1),
            None => None,
        }
    }
}

/// The needle occurs somewhere in the haystack.
pub open spec fn contains_sub(h: Seq<char>, n: Seq<char>) -> bool {
    find_sub_spec(h, n) is Some
}

/// A match in the tail of `h` is a match in `h`, one position later.
proof fn lemma_match_at_shift(h: Seq<char>, n: Seq<char>, i: int)
    requires
        h.len() > 0,
        0 <= i,
    ensures
        match_at(h.drop_first(), n, i) == match_at(h, n, i + 1),
{
    if i + n.len() <= h.len() - 1 {
        assert(h.drop_first().subrange(i, i + n.len() as int) =~= h.subrange(
            i + 1,
            i + 1 + n.len() as int,
        ));
    }
}

/// `find_sub_spec` returns exactly the first match: a `Some` is a match
/// preceded by none, and a `None` means no position matches.
pub proof fn lemma_find_sub_spec_ensures(h: Seq<char>, n: Seq<char>)
    ensures
        match find_sub_spec(h, n) {
            Some(i) => match_at(h, n, i) && forall|j: int| 0 <= j < i ==> !match_at(h, n, j),
            None => forall|j: int| !match_at(h, n, j),
        },
    decreases h.len(),
{
    if match_at(h, n, 0) {
    } else if h.len() == 0 {
        assert forall|j: int| !match_at(h, n, j) by {
            if j > 0 {
                assert(j + n.len() > 0);
            }
        }
    } else {
        lemma_find_sub_spec_ensures(h.drop_first(), n);
        match find_sub_spec(h.drop_first(), n) {
            Some(i) => {
                lemma_match_at_shift(h, n, i);
                assert forall|j: int| 0 <= j < i + 1 implies !match_at(h, n, j) by {
                    if j > 0 {
                        lemma_match_at_shift(h, n, j - 1);
                    }
                }
            },
            None => {
                assert forall|j: int| !match_at(h, n, j) by {
                    if j > 0 {
                        lemma_match_at_shift(h, n, j - 1);
                    }
                }
            },
        }
    }
}

/// A first match at `i` determines the value of `find_sub_spec`.
pub proof fn lemma_find_sub_spec_from_match(h: Seq<char>, n: Seq<char>, i: int)
    requires
        match_at(h, n, i),
        forall|j: int| 0 <= j < i ==> !match_at(h, n, j),
    ensures
        find_sub_spec(h, n) == Some(i),
{
    lemma_find_sub_spec_ensures(h, n);
    match find_sub_spec(h, n) {
        Some(k) => {
            if k < i {
                assert(!match_at(h, n, k));
            } else if i < k {
                assert(!match_at(h, n, i));
            }
        },
        None => {
            assert(!match_at(h, n, i));
        },
    }
}

/// Finds the first occurrence of `n` in `h`, as a character index.
pub fn find_sub(h: &str, n: &str) -> (r: Option<usize>)
    ensures
        match r {
            Some(i) => find_sub_spec(h@, n@) == Some(i as int),
            None => find_sub_spec(h@, n@) is None,
        },
{
    let hlen = h.unicode_len();
    let nlen = n.unicode_len();
    if nlen > hlen {
        proof {
            lemma_find_sub_spec_ensures(h@, n@);
            if find_sub_spec(h@, n@) is Some {
                let i = find_sub_spec(h@, n@)->Some_0;
                assert(match_at(h@, n@, i));
            }
        }
        return None;
    }
    let mut i: usize = 0;
    loop
        invariant
            0 <= i <= hlen - nlen + 1,
            nlen <= hlen,
            hlen == h@.len(),
            nlen == n@.len(),
            forall|j: int| 0 <= j < i ==> !match_at(h@, n@, j),
        ensures
            i == hlen - nlen + 1,
        decreases hlen - nlen + 1 - i,
    {
        if i > hlen - nlen {
            break;
        }
        let mut j: usize = 0;
        let mut matched = true;
        loop
            invariant
                0 <= j <= nlen,
                i + nlen <= hlen,
                hlen == h@.len(),
                nlen == n@.len(),
                matched ==> forall|k: int| 0 <= k < j ==> h@[i + k] == n@[k],
                !matched ==> !match_at(h@, n@, i as int) && nlen > 0,
            ensures
                j == nlen || !matched,
            decreases nlen - j,
        {
            if j >= nlen {
                break;
            }
            if h.get_char(i + j) != n.get_char(j) {
                proof {
                    if match_at(h@, n@, i as int) {
                        assert(h@.subrange(i as int, i + nlen as int)[j as int] == n@[j as int]);
                    }
                }
                matched = false;
                break;
            }
            assert(h@[i + j] == n@[j as int]);
            j = j + 1;
        }
        if matched {
            proof {
                assert(h@.subrange(i as int, i + nlen as int) =~= n@);
                lemma_find_sub_spec_from_match(h@, n@, i as int);
            }
            return Some(i);
        }
        i = i + 1;
    }
    proof {
        lemma_find_sub_spec_ensures(h@, n@);
        if find_sub_spec(h@, n@) is Some {
            let k = find_sub_spec(h@, n@)->Some_0;
            assert(match_at(h@, n@, k));
            assert(k <= hlen - nlen);
        }
    }
    None
}

/// Whether `h` contains `n` as a contiguous substring.
pub fn str_contains(h: &str, n: &str) -> (r: bool)
    ensures
        r == contains_sub(h@, n@),
{
    match find_sub(h, n) {
        Some(_) => true,
        None => false,
    }
}

/// Compares two strings character by character.
pub fn str_eq(a: &str, b: &str) -> (r: bool)
    ensures
        r == (a@ == b@),
{
    let alen = a.unicode_len();
    let blen = b.unicode_len();
    if alen != blen {
        return false;
    }
    let mut i: usize = 0;
    while i < alen
        invariant
            0 <= i <= alen,
            alen == a@.len(),
            alen == b@.len(),
            forall|j: int| 0 <= j < i ==> a@[j] == b@[j],
        decreases alen - i,
    {
        if a.get_char(i) != b.get_char(i) {
            return false;
        }
        i = i + 1;
    }
    proof {
        assert(a@ =~= b@);
    }
    true
}

/// The Unicode `White_Space` code points, the set `char::is_whitespace`
/// recognizes.
pub open spec fn is_space_char(c: char) -> bool {
    let u = c as int;
    u == 0x20 || (0x09 <= u && u <= 0x0D) || u == 0x85 || u == 0xA0 || u == 0x1680 || (0x2000
        <= u && u <= 0x200A) || u == 0x2028 || u == 0x2029 || u == 0x202F || u == 0x205F || u
        == 0x3000
}

/// Whether `c` is a Unicode whitespace character.
pub fn is_space(c: char) -> (r: bool)
    ensures
        r == is_space_char(c),
{
    let u = c as u32;
    u == 0x20 || (0x09 <= u && u <= 0x0D) || u == 0x85 || u == 0xA0 || u == 0x1680 || (0x2000
        <= u && u <= 0x200A) || u == 0x2028 || u == 0x2029 || u == 0x202F || u == 0x205F || u
        == 0x3000
}

/// An ASCII decimal digit.
pub open spec fn is_digit_char(c: char) -> bool {
    0x30 <= c as int && c as int <= 0x39
}

/// Whether `c` is an ASCII decimal digit.
pub fn is_digit(c: char) -> (r: bool)
    ensures
        r == is_digit_char(c),
{
    let u = c as u32;
    0x30 <= u && u <= 0x39
}

/// Numeric value of an ASCII digit character.
pub open spec fn digit_val(c: char) -> int {
    c as int - 0x30
}

/// `s` without its leading whitespace.
pub open spec fn skip_spaces(s: Seq<char>) -> Seq<char>
    decreases s.len(),
{
    if s.len() > 0 && is_space_char(s[0]) {
        skip_spaces(s.drop_first())
    } else {
        s
    }
}

/// The maximal run of ASCII digits at the start of `s`.
pub open spec fn leading_digits(s: Seq<char>) -> Seq<char>
    decreases s.len(),
{
    if s.len() > 0 && is_digit_char(s[0]) {
        seq![s[0]] + leading_digits(s.drop_first())
    } else {
        Seq::empty()
    }
}

/// The value of a sequence of ASCII digits read in base ten.
pub open spec fn digits_value(ds: Seq<char>) -> int
    decreases ds.len(),
{
    if ds.len() == 0 {
        0
    } else {
        digits_value(ds.drop_last()) * 10 + digit_val(ds.last())
    }
}

/// The decimal rendering of `n`, most significant digit first.
pub open spec fn dec_digits(n: int) -> Seq<char>
    decreases n,
{
    if n < 0 {
        Seq::empty()
    } else if n < 10 {
        seq![digit_char(n)]
    } else {
        dec_digits(n / 10) + seq![digit_char(n % 10)]
    }
}

/// The digit character for a value below ten.
pub open spec fn digit_char(d: int) -> char {
    if d == 0 {
        '0'
    } else if d == 1 {
        '1'
    } else if d == 2 {
        '2'
    } else if d == 3 {
        '3'
    } else if d == 4 {
        '4'
    } else if d == 5 {
        '5'
    } else if d == 6 {
        '6'
    } else if d == 7 {
        '7'
    } else if d == 8 {
        '8'
    } else {
        '9'
    }
}

/// The one-character string for a digit value.
fn digit_str(d: u64) -> (r: &'static str)
    requires
        d < 10,
    ensures
        r@ =~= seq![digit_char(d as int)],
{
    proof {
        reveal_strlit("0");
        reveal_strlit("1");
        reveal_strlit("2");
        reveal_strlit("3");
        reveal_strlit("4");
        reveal_strlit("5");
        reveal_strlit("6");
        reveal_strlit("7");
        reveal_strlit("8");
        reveal_strlit("9");
    }
    if d == 0 {
        "0"
    } else if d == 1 {
        "1"
    } else if d == 2 {
        "2"
    } else if d == 3 {
        "3"
    } else if d == 4 {
        "4"
    } else if d == 5 {
        "5"
    } else if d == 6 {
        "6"
    } else if d == 7 {
        "7"
    } else if d == 8 {
        "8"
    } else {
        "9"
    }
}

/// Renders `n` in decimal.
pub fn u64_to_dec(n: u64) -> (r: String)
    ensures
        r@ == dec_digits(n as int),
    decreases n,
{
    if n < 10 {
        let mut s = String::new();
        s.append(digit_str(n));
        proof {
            assert(s@ =~= dec_digits(n as int));
        }
        s
    } else {
        let mut s = u64_to_dec(n / 10);
        s.append(digit_str(n % 10));
        proof {
            assert(s@ =~= dec_digits(n as int));
        }
        s
    }
}

/// Renders `n` in decimal.
pub fn usize_to_dec(n: usize) -> (r: String)
    ensures
        r@ == dec_digits(n as int),
{
    u64_to_dec(n as u64)
}

/// The views of a sequence of strings.
pub open spec fn seq_views(parts: Seq<String>) -> Seq<Seq<char>> {
    parts.map_values(|s: String| s@)
}

/// `parts` joined with `sep` between consecutive elements.
pub open spec fn join_with(parts: Seq<Seq<char>>, sep: Seq<char>) -> Seq<char>
    decreases parts.len(),
{
    if parts.len() == 0 {
        Seq::empty()
    } else if parts.len() == 1 {
        parts[0]
    } else {
        join_with(parts.drop_last(), sep) + sep + parts.last()
    }
}

/// Joins strings with a separator.
pub fn join_strings(parts: &Vec<String>, sep: &str) -> (r: String)
    ensures
        r@ == join_with(seq_views(parts@), sep@),
{
    let mut s = String::new();
    let n = parts.len();
    let mut i: usize = 0;
    proof {
        assert(seq_views(parts@).take(0) =~= Seq::<Seq<char>>::empty());
    }
    while i < n
        invariant
            0 <= i <= n,
            n == parts@.len(),
            s@ == join_with(seq_views(parts@).take(i as int), sep@),
        decreases n - i,
    {
        if i > 0 {
            s.append(sep);
        }
        s.append(parts[i].as_str());
        proof {
            let views = seq_views(parts@);
            assert(views.take(i + 1).drop_last() =~= views.take(i as int));
            assert(views.take(i + 1).last() == views[i as int]);
            assert(s@ =~= join_with(views.take(i + 1), sep@));
        }
        i = i + 1;
    }
    proof {
        assert(seq_views(parts@).take(n as int) =~= seq_views(parts@));
    }
    s
}

/// Copies a vector of strings.
pub fn clone_string_vec(v: &Vec<String>) -> (r: Vec<String>)
    ensures
        r@ == v@,
{
    let mut r: Vec<String> = Vec::new();
    let n = v.len();
    let mut i: usize = 0;
    while i < n
        invariant
            0 <= i <= n,
            n == v@.len(),
            r@ =~= v@.take(i as int),
        decreases n - i,
    {
        r.push(v[i].clone());
        i = i + 1;
    }
    proof {
        assert(v@.take(n as int) =~= v@);
    }
    r
}

/// The character sequence `str::to_lowercase` produces for `s`; a
/// function of the input characters alone.
pub uninterp spec fn lower_of(s: Seq<char>) -> Seq<char>;

/// Relies on `str::to_lowercase`: the lowercased text depends only on
/// the characters of the input.
#[verifier::external_body]
pub(crate) fn to_lowercase(s: &str) -> (r: String)
    ensures
        r@ == lower_of(s@),
{
    s.to_lowercase()
}

} // verus!
