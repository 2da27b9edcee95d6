//! Verified text utilities: character classes, decimal numbers, line and
//! token splitting. Everything here is stated over `Seq<char>` views.

use vstd::prelude::*;

verus! {

/// Whitespace as the tokenizer understands it.
pub open spec fn is_space_char(c: char) -> bool {
    c == ' ' || c == '\t' || c == '\r' || c == '\n'
}

/// Executable test for [`is_space_char`].
pub fn is_space(c: char) -> (r: bool)
    ensures
        r == is_space_char(c),
{
    c == ' ' || c == '\t' || c == '\r' || c == '\n'
}

/// Length of the longest prefix of `s` on which `stop` never holds.
pub open spec fn prefix_len(s: Seq<char>, stop: spec_fn(char) -> bool) -> nat
    decreases s.len(),
{
    if s.len() == 0 {
        0
    } else if stop(s[0]) {
        0
    } else {
        (1 + prefix_len(s.drop_first(), stop)) as nat
    }
}

/// Characterization of [`prefix_len`]: it is the index of the first character
/// satisfying `stop`, or the length of `s` when none does.
pub proof fn lemma_prefix_len(s: Seq<char>, stop: spec_fn(char) -> bool)
    ensures
        prefix_len(s, stop) <= s.len(),
        forall|i: int| 0 <= i < prefix_len(s, stop) ==> !stop(s[i]),
        prefix_len(s, stop) < s.len() ==> stop(s[prefix_len(s, stop) as int]),
    decreases s.len(),
{
    if s.len() == 0 {
    } else if stop(s[0]) {
    } else {
        lemma_prefix_len(s.drop_first(), stop);
        let k = prefix_len(s, stop);
        assert forall|i: int| 0 <= i < k implies !stop(s[i]) by {
            if i > 0 {
                assert(s.drop_first()[i - 1] == s[i]);
            }
        }
        if k < s.len() {
            assert(s.drop_first()[k - 1] == s[k as int]);
        }
    }
}

/// Converse direction: any index with the three properties of
/// [`lemma_prefix_len`] is `prefix_len`.
pub proof fn lemma_prefix_len_unique(s: Seq<char>, stop: spec_fn(char) -> bool, k: int)
    requires
        0 <= k <= s.len(),
        forall|i: int| 0 <= i < k ==> !stop(s[i]),
        k < s.len() ==> stop(s[k]),
    ensures
        prefix_len(s, stop) == k,
{
    lemma_prefix_len(s, stop);
    let p = prefix_len(s, stop) as int;
    if p < k {
        assert(!stop(s[p]));
    } else if k < p {
        assert(!stop(s[k]));
    }
}

/// Equality of two string slices, decided character by character.
pub fn str_eq(a: &str, b: &str) -> (r: bool)
    ensures
        r == (a@ == b@),
{
    let na = a.unicode_len();
    let nb = b.unicode_len();
    if na != nb {
        return false;
    }
    let mut i: usize = 0;
    while i < na
        invariant
            na == a@.len(),
            na == b@.len(),
            0 <= i <= na,
            forall|j: int| 0 <= j < i ==> a@[j] == b@[j],
        decreases na - i,
    {
        if a.get_char(i) != b.get_char(i) {
            return false;
        }
        i += 1;
    }
    proof {
        assert(a@ =~= b@);
    }
    true
}

/// Does `s` start with `p`?
pub fn has_prefix(s: &str, p: &str) -> (r: bool)
    ensures
        r == p@.is_prefix_of(s@),
{
    let n = s.unicode_len();
    let np = p.unicode_len();
    if np > n {
        return false;
    }
    let mut i: usize = 0;
    while i < np
        invariant
            n == s@.len(),
            np == p@.len(),
            np <= n,
            0 <= i <= np,
            forall|j: int| 0 <= j < i ==> s@[j] == p@[j],
        decreases np - i,
    {
        if s.get_char(i) != p.get_char(i) {
            return false;
        }
        i += 1;
    }
    proof {
        assert(p@ =~= s@.subrange(0, p@.len() as int));
    }
    true
}

/// First index at or after `from` where `c` occurs in `s`.
pub fn find_char_from(s: &str, c: char, from: usize) -> (r: Option<usize>)
    requires
        from <= s@.len(),
    ensures
        match r {
            Some(i) => from <= i < s@.len() && s@[i as int] == c && (forall|j: int|
                from <= j < i ==> s@[j] != c),
            None => forall|j: int| from <= j < s@.len() ==> s@[j] != c,
        },
{
    let n = s.unicode_len();
    let mut i: usize = from;
    while i < n
        invariant
            n == s@.len(),
            from <= i <= n,
            forall|j: int| from <= j < i ==> s@[j] != c,
        decreases n - i,
    {
        if s.get_char(i) == c {
            return Some(i);
        }
        i += 1;
    }
    None
}

/// Decimal digit characters.
pub open spec fn is_digit_char(c: char) -> bool {
    '0' <= c && c <= '9'
}

/// Numeric value of a digit character.
pub open spec fn digit_char_val(c: char) -> int {
    c as int - '0' as int
}

/// The digit character for a value in `0..10`.
pub open spec fn digit_char(d: int) -> char {
    if d == 0 {
        '0'
    } else if d == 1 {
        '1'
    } else if d == 2 {
        '2'
    } else if d == 3 {
        '3'
    } else if d == 4 {
        '4'
    } else if d == 5 {
        '5'
    } else if d == 6 {
        '6'
    } else if d == 7 {
        '7'
    } else if d == 8 {
        '8'
    } else {
        '9'
    }
}

/// Every character of `s` is a decimal digit.
pub open spec fn is_digit_seq(s: Seq<char>) -> bool {
    forall|i: int| 0 <= i < s.len() ==> is_digit_char(s[i])
}

/// Value of a digit string read in base ten.
pub open spec fn digits_val(s: Seq<char>) -> nat
    decreases s.len(),
{
    if s.len() == 0 {
        0
    } else {
        (digits_val(s.drop_last()) * 10 + digit_char_val(s.last())) as nat
    }
}

/// The canonical decimal rendering of `n`: no sign, no leading zero except
/// for `n == 0` itself.
pub open spec fn decimal_of(n: nat) -> Seq<char>
    decreases n,
{
    if n < 10 {
        seq![digit_char(n as int)]
    } else {
        decimal_of(n / 10).push(digit_char((n % 10) as int))
    }
}

/// Value and rendering of a single digit agree.
pub proof fn lemma_digit_char_val(d: int)
    requires
        0 <= d < 10,
    ensures
        digit_char_val(digit_char(d)) == d,
        is_digit_char(digit_char(d)),
{
}

/// The decimal rendering reads back to the number it came from.
pub proof fn lemma_decimal_of_val(n: nat)
    ensures
        decimal_of(n).len() >= 1,
        is_digit_seq(decimal_of(n)),
        digits_val(decimal_of(n)) == n,
    decreases n,
{
    if n < 10 {
        lemma_digit_char_val(n as int);
        let s = decimal_of(n);
        assert(s =~= seq![digit_char(n as int)]);
        assert(s.drop_last() =~= Seq::<char>::empty());
        assert(digits_val(s.drop_last()) == 0);
        assert(s.last() == digit_char(n as int));
        assert(digits_val(s) == digit_char_val(digit_char(n as int)));
        assert(digits_val(s) == n);
    } else {
        lemma_decimal_of_val(n / 10);
        lemma_digit_char_val((n % 10) as int);
        let s = decimal_of(n);
        assert(s.drop_last() =~= decimal_of(n / 10));
        assert(s.last() == digit_char((n % 10) as int));
        assert(digits_val(s) == (n / 10) * 10 + n % 10);
        assert((n / 10) * 10 + n % 10 == n) by (nonlinear_arith);
        assert forall|i: int| 0 <= i < s.len() implies is_digit_char(s[i]) by {
            if i < s.len() - 1 {
                assert(s[i] == decimal_of(n / 10)[i]);
            }
        }
    }
}

/// A digit string is worth at least as much as any of its prefixes.
pub proof fn lemma_digits_val_prefix(s: Seq<char>, k: int)
    requires
        0 <= k <= s.len(),
        is_digit_seq(s),
    ensures
        digits_val(s.take(k)) <= digits_val(s),
    decreases s.len() - k,
{
    if k < s.len() {
        lemma_digits_val_prefix(s, k + 1);
        let t = s.take(k + 1);
        assert(t.drop_last() =~= s.take(k));
        assert(t.last() == s[k]);
        assert(is_digit_char(s[k]));
        assert(digits_val(s.take(k)) <= digits_val(s.take(k + 1)));
    } else {
        assert(s.take(k) =~= s);
    }
}

/// Parse an unsigned decimal integer. Returns `Some` exactly when the text
/// is one or more digits whose value fits in a `u64`.
pub fn parse_u64(s: &str) -> (r: Option<u64>)
    ensures
        match r {
            Some(v) => s@.len() > 0 && is_digit_seq(s@) && digits_val(s@) == v,
            None => s@.len() == 0 || !is_digit_seq(s@) || digits_val(s@) > u64::MAX,
        },
{
    let n = s.unicode_len();
    if n == 0 {
        return None;
    }
    let mut acc: u64 = 0;
    let mut i: usize = 0;
    while i < n
        invariant
            n == s@.len(),
            0 <= i <= n,
            is_digit_seq(s@.take(i as int)),
            acc == digits_val(s@.take(i as int)),
        decreases n - i,
    {
        let c = s.get_char(i);
        if !(c >= '0' && c <= '9') {
            return None;
        }
        let d: u64 = (c as u32 - 48) as u64;
        if acc > u64::MAX / 10 || (acc == u64::MAX / 10 && d > u64::MAX % 10) {
            proof {
                let t = s@.take(i as int + 1);
                assert(t.drop_last() =~= s@.take(i as int));
                assert(t.last() == s@[i as int]);
                assert(digits_val(t) > u64::MAX);
                if is_digit_seq(s@) {
                    lemma_digits_val_prefix(s@, i as int + 1);
                }
            }
            return None;
        }
        proof {
            let t = s@.take(i as int + 1);
            assert(t.drop_last() =~= s@.take(i as int));
            assert(t.last() == s@[i as int]);
        }
        acc = acc * 10 + d;
        i += 1;
    }
    proof {
        assert(s@.take(n as int) =~= s@);
    }
    Some(acc)
}

/// A one-character string slice for a digit value.
fn digit_str(d: u64) -> (r: &'static str)
    requires
        d < 10,
    ensures
        r@ =~= seq![digit_char(d as int)],
{
    proof {
        reveal_strlit("0");
        reveal_strlit("1");
        reveal_strlit("2");
        reveal_strlit("3");
        reveal_strlit("4");
        reveal_strlit("5");
        reveal_strlit("6");
        reveal_strlit("7");
        reveal_strlit("8");
        reveal_strlit("9");
    }
    if d == 0 {
        "0"
    } else if d == 1 {
        "1"
    } else if d == 2 {
        "2"
    } else if d == 3 {
        "3"
    } else if d == 4 {
        "4"
    } else if d == 5 {
        "5"
    } else if d == 6 {
        "6"
    } else if d == 7 {
        "7"
    } else if d == 8 {
        "8"
    } else {
        "9"
    }
}

/// Render `n` in decimal.
pub fn u64_to_string(n: u64) -> (r: String)
    ensures
        r@ == decimal_of(n as nat),
    decreases n,
{
    if n < 10 {
        digit_str(n).to_owned()
    } else {
        let high = u64_to_string(n / 10);
        high.concat(digit_str(n % 10))
    }
}

/// The views of a vector of strings.
pub open spec fn views_of(v: Seq<String>) -> Seq<Seq<char>> {
    v.map_values(|t: String| t@)
}

/// Pushing a string and then taking views appends its view.
pub proof fn lemma_views_push(v: Seq<String>, x: String)
    ensures
        views_of(v.push(x)) == views_of(v).push(x@),
{
    assert(views_of(v.push(x)) =~= views_of(v).push(x@));
}

/// Stop predicate of the line splitter: a newline ends a line.
pub open spec fn nl_stop() -> spec_fn(char) -> bool {
    |c: char| c == '\n'
}

/// Stop predicate of the tokenizer: whitespace ends a token.
pub open spec fn space_stop() -> spec_fn(char) -> bool {
    |c: char| is_space_char(c)
}

/// `s` split at newline characters. A trailing newline closes the final
/// line; any text after the last newline forms a line of its own.
pub open spec fn lines_spec(s: Seq<char>) -> Seq<Seq<char>>
    decreases s.len(),
    via lines_spec_decreases
{
    if s.len() == 0 {
        seq![]
    } else {
        let k = prefix_len(s, nl_stop()) as int;
        if k == s.len() {
            seq![s]
        } else {
            seq![s.take(k)] + lines_spec(s.skip(k + 1))
        }
    }
}

#[via_fn]
proof fn lines_spec_decreases(s: Seq<char>) {
    lemma_prefix_len(s, nl_stop());
}

/// Lines joined back into one text, each line closed by a newline.
pub open spec fn join_lines(ls: Seq<Seq<char>>) -> Seq<char>
    decreases ls.len(),
{
    if ls.len() == 0 {
        Seq::empty()
    } else {
        ls[0] + seq!['\n'] + join_lines(ls.drop_first())
    }
}

/// Splitting joined lines gives the lines back, provided none of them
/// contains a newline of its own.
pub proof fn lemma_lines_of_join(ls: Seq<Seq<char>>)
    requires
        forall|i: int| 0 <= i < ls.len() ==> !(#[trigger] ls[i]).contains('\n'),
    ensures
        lines_spec(join_lines(ls)) == ls,
    decreases ls.len(),
{
    if ls.len() > 0 {
        let l0 = ls[0];
        let rest = join_lines(ls.drop_first());
        let s = l0 + seq!['\n'] + rest;
        assert forall|i: int| 0 <= i < l0.len() implies !(nl_stop()(s[i])) by {
            assert(s[i] == l0[i]);
            assert(!l0.contains('\n'));
            if l0[i] == '\n' {
                assert(l0.contains('\n'));
            }
        }
        assert(s[l0.len() as int] == '\n');
        lemma_prefix_len_unique(s, nl_stop(), l0.len() as int);
        assert(s.take(l0.len() as int) =~= l0);
        assert(s.skip(l0.len() as int + 1) =~= rest);
        lemma_lines_of_join(ls.drop_first());
        assert(seq![l0] + ls.drop_first() =~= ls);
    }
}

/// Split `s` at newline characters.
pub fn split_lines(s: &str) -> (r: Vec<String>)
    ensures
        views_of(r@) == lines_spec(s@),
{
    let n = s.unicode_len();
    let mut res: Vec<String> = Vec::new();
    let mut start: usize = 0;
    let mut i: usize = 0;
    proof {
        assert(s@.skip(0) =~= s@);
        assert(views_of(res@) + lines_spec(s@) =~= lines_spec(s@));
    }
    while i < n
        invariant
            n == s@.len(),
            start <= i <= n,
            forall|j: int| start <= j < i ==> s@[j] != '\n',
            lines_spec(s@) == views_of(res@) + lines_spec(s@.skip(start as int)),
        decreases n - i,
    {
        if s.get_char(i) == '\n' {
            let line = s.substring_char(start, i).to_owned();
            proof {
                let t = s@.skip(start as int);
                assert forall|m: int| 0 <= m < i - start implies !(nl_stop()(t[m])) by {
                    assert(t[m] == s@[start + m]);
                }
                assert(t[i - start] == s@[i as int]);
                lemma_prefix_len_unique(t, nl_stop(), i - start);
                assert(t.take(i - start) =~= s@.subrange(start as int, i as int));
                assert(t.skip(i - start + 1) =~= s@.skip(i as int + 1));
                assert(lines_spec(t) == seq![line@] + lines_spec(s@.skip(i as int + 1)));
                lemma_views_push(res@, line);
                assert(views_of(res@) + lines_spec(t) == views_of(res@.push(line)) + lines_spec(
                    s@.skip(i as int + 1),
                )) by {
                    assert(views_of(res@) + (seq![line@] + lines_spec(s@.skip(i as int + 1)))
                        =~= views_of(res@).push(line@) + lines_spec(s@.skip(i as int + 1)));
                }
            }
            res.push(line);
            start = i + 1;
        }
        i += 1;
    }
    if start < n {
        let line = s.substring_char(start, n).to_owned();
        proof {
            let t = s@.skip(start as int);
            assert forall|m: int| 0 <= m < t.len() implies !(nl_stop()(t[m])) by {
                assert(t[m] == s@[start + m]);
            }
            lemma_prefix_len_unique(t, nl_stop(), t.len() as int);
            assert(t =~= s@.subrange(start as int, n as int));
            assert(lines_spec(t) == seq![t]);
            lemma_views_push(res@, line);
            assert(views_of(res@) + seq![line@] =~= views_of(res@.push(line)));
        }
        res.push(line);
    } else {
        proof {
            assert(s@.skip(start as int).len() == 0);
            assert(views_of(res@) + lines_spec(s@.skip(start as int)) =~= views_of(res@));
        }
    }
    res
}

/// `s` split at whitespace: the maximal runs of non-whitespace characters.
pub open spec fn tokens_spec(s: Seq<char>) -> Seq<Seq<char>>
    decreases s.len(),
    via tokens_spec_decreases
{
    if s.len() == 0 {
        seq![]
    } else if is_space_char(s[0]) {
        tokens_spec(s.drop_first())
    } else {
        let k = prefix_len(s, space_stop()) as int;
        seq![s.take(k)] + tokens_spec(s.skip(k))
    }
}

#[via_fn]
proof fn tokens_spec_decreases(s: Seq<char>) {
    lemma_prefix_len(s, space_stop());
}

/// End of the token that starts at `i`: the first whitespace index at or
/// after `i`, or the end of `s`.
fn token_end(s: &str, i: usize) -> (j: usize)
    requires
        i < s@.len(),
        !is_space_char(s@[i as int]),
    ensures
        i < j <= s@.len(),
        forall|m: int| i <= m < j ==> !is_space_char(s@[m]),
        j < s@.len() ==> is_space_char(s@[j as int]),
{
    let n = s.unicode_len();
    let mut j: usize = i + 1;
    while j < n
        invariant
            n == s@.len(),
            i < j <= n,
            forall|m: int| i <= m < j ==> !is_space_char(s@[m]),
        decreases n - j,
    {
        if is_space(s.get_char(j)) {
            return j;
        }
        j += 1;
    }
    j
}

/// Split `s` into whitespace-separated tokens.
pub fn split_ws(s: &str) -> (r: Vec<String>)
    ensures
        views_of(r@) == tokens_spec(s@),
{
    let n = s.unicode_len();
    let mut res: Vec<String> = Vec::new();
    let mut i: usize = 0;
    proof {
        assert(s@.skip(0) =~= s@);
        assert(views_of(res@) + tokens_spec(s@) =~= tokens_spec(s@));
    }
    while i < n
        invariant
            n == s@.len(),
            0 <= i <= n,
            tokens_spec(s@) == views_of(res@) + tokens_spec(s@.skip(i as int)),
        decreases n - i,
    {
        let c = s.get_char(i);
        if is_space(c) {
            proof {
                let t = s@.skip(i as int);
                assert(t[0] == s@[i as int]);
                assert(t.drop_first() =~= s@.skip(i as int + 1));
            }
            i += 1;
        } else {
            let j = token_end(s, i);
            let tok = s.substring_char(i, j).to_owned();
            proof {
                let t = s@.skip(i as int);
                assert forall|m: int| 0 <= m < j - i implies !(space_stop()(t[m])) by {
                    assert(t[m] == s@[i + m]);
                }
                if j < n {
                    assert(t[j - i] == s@[j as int]);
                }
                lemma_prefix_len_unique(t, space_stop(), j - i);
                assert(t.take(j - i) =~= s@.subrange(i as int, j as int));
                assert(t.skip(j - i) =~= s@.skip(j as int));
                assert(!is_space_char(t[0]));
                assert(tokens_spec(t) == seq![tok@] + tokens_spec(s@.skip(j as int)));
                lemma_views_push(res@, tok);
                assert(views_of(res@) + (seq![tok@] + tokens_spec(s@.skip(j as int))) =~= views_of(
                    res@.push(tok),
                ) + tokens_spec(s@.skip(j as int)));
            }
            res.push(tok);
            i = j;
        }
    }
    proof {
        assert(s@.skip(i as int).len() == 0);
        assert(views_of(res@) + tokens_spec(s@.skip(i as int)) =~= views_of(res@));
    }
    res
}

} // verus!
