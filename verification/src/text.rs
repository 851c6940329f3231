//! Verified character-level utilities shared by the pattern, scanner and
//! pipeline modules: whitespace trimming, line splitting, lexicographic
//! comparison and decimal formatting, all specified over `Seq<char>`.

use vstd::prelude::*;

verus! {

/// The whitespace characters recognised inside a single line.
pub open spec fn is_space(c: char) -> bool {
    c == ' ' || c == '\t'
}

pub fn space_char(c: char) -> (r: bool)
    ensures
        r == is_space(c),
{
    c == ' ' || c == '\t'
}

/// Relies on std's String::push: appends exactly one character at the end
/// of the string. vstd specifies append/concat but not push.
#[verifier::external_body]
pub fn push_char(s: &mut String, c: char)
    ensures
        final(s)@ == old(s)@.push(c),
{
    s.push(c);
}

// ---------------------------------------------------------------------------
// character search
// ---------------------------------------------------------------------------

pub fn find_char(s: &str, c: char) -> (r: Option<usize>)
    ensures
        match r {
            Some(i) => 0 <= i < s@.len() && s@[i as int] == c && (forall|k: int|
                0 <= k < i ==> s@[k] != c),
            None => forall|k: int| 0 <= k < s@.len() ==> s@[k] != c,
        },
{
    let n = s.unicode_len();
    let mut i: usize = 0;
    while i < n
        invariant
            n == s@.len(),
            i <= n,
            forall|k: int| 0 <= k < i ==> s@[k] != c,
        decreases n - i,
    {
        if s.get_char(i) == c {
            return Some(i);
        }
        i += 1;
    }
    None
}

pub fn contains_char(s: &str, c: char) -> (r: bool)
    ensures
        r == s@.contains(c),
{
    match find_char(s, c) {
        Some(i) => {
            assert(s@.contains(c)) by {
                assert(s@[i as int] == c);
            }
            true
        },
        None => {
            assert(!s@.contains(c)) by {
                if s@.contains(c) {
                    let k = choose|k: int| 0 <= k < s@.len() && s@[k] == c;
                    assert(s@[k] != c);
                }
            }
            false
        },
    }
}

/// Character-wise string equality.
pub fn str_eq(a: &str, b: &str) -> (r: bool)
    ensures
        r == (a@ == b@),
{
    let na = a.unicode_len();
    let nb = b.unicode_len();
    if na != nb {
        assert(a@ != b@) by {
            assert(a@.len() != b@.len());
        }
        return false;
    }
    let mut i: usize = 0;
    while i < na
        invariant
            na == a@.len(),
            na == b@.len(),
            i <= na,
            forall|k: int| 0 <= k < i ==> a@[k] == b@[k],
        decreases na - i,
    {
        if a.get_char(i) != b.get_char(i) {
            assert(a@ != b@);
            return false;
        }
        i += 1;
    }
    assert(a@ =~= b@);
    true
}

// ---------------------------------------------------------------------------
// trimming
// ---------------------------------------------------------------------------

pub open spec fn trim_start_spec(s: Seq<char>) -> Seq<char>
    decreases s.len(),
{
    if s.len() > 0 && is_space(s[0]) {
        trim_start_spec(s.drop_first())
    } else {
        s
    }
}

pub open spec fn trim_end_spec(s: Seq<char>) -> Seq<char>
    decreases s.len(),
{
    if s.len() > 0 && is_space(s.last()) {
        trim_end_spec(s.drop_last())
    } else {
        s
    }
}

pub open spec fn trim_spec(s: Seq<char>) -> Seq<char> {
    trim_end_spec(trim_start_spec(s))
}

proof fn lemma_trim_start_index(s: Seq<char>, i: int)
    requires
        0 <= i <= s.len(),
        forall|k: int| 0 <= k < i ==> is_space(s[k]),
        i == s.len() || !is_space(s[i]),
    ensures
        trim_start_spec(s) =~= s.subrange(i, s.len() as int),
    decreases i,
{
    if i == 0 {
        assert(trim_start_spec(s) == s);
    } else {
        assert(is_space(s[0]));
        let t = s.drop_first();
        assert(forall|k: int| 0 <= k < i - 1 ==> is_space(t[k]));
        lemma_trim_start_index(t, i - 1);
        assert(t.subrange(i - 1, t.len() as int) =~= s.subrange(i, s.len() as int));
    }
}

proof fn lemma_trim_end_index(s: Seq<char>, j: int)
    requires
        0 <= j <= s.len(),
        forall|k: int| j <= k < s.len() ==> is_space(s[k]),
        j == 0 || !is_space(s[j - 1]),
    ensures
        trim_end_spec(s) =~= s.subrange(0, j),
    decreases s.len() - j,
{
    if j == s.len() {
        assert(trim_end_spec(s) == s);
    } else {
        assert(is_space(s.last()));
        let t = s.drop_last();
        assert(forall|k: int| j <= k < t.len() ==> is_space(t[k]));
        lemma_trim_end_index(t, j);
        assert(t.subrange(0, j) =~= s.subrange(0, j));
    }
}

pub fn trim_start_str<'a>(s: &'a str) -> (r: &'a str)
    ensures
        r@ == trim_start_spec(s@),
{
    let n = s.unicode_len();
    let mut i: usize = 0;
    while i < n && space_char(s.get_char(i))
        invariant
            n == s@.len(),
            i <= n,
            forall|k: int| 0 <= k < i ==> is_space(s@[k]),
        decreases n - i,
    {
        i += 1;
    }
    proof {
        lemma_trim_start_index(s@, i as int);
    }
    s.substring_char(i, n)
}

pub fn trim_str<'a>(s: &'a str) -> (r: &'a str)
    ensures
        r@ == trim_spec(s@),
{
    let n = s.unicode_len();
    let mut i: usize = 0;
    while i < n && space_char(s.get_char(i))
        invariant
            n == s@.len(),
            i <= n,
            forall|k: int| 0 <= k < i ==> is_space(s@[k]),
        decreases n - i,
    {
        i += 1;
    }
    proof {
        lemma_trim_start_index(s@, i as int);
    }
    let mut j: usize = n;
    while j > i && space_char(s.get_char(j - 1))
        invariant
            n == s@.len(),
            i <= j <= n,
            forall|k: int| j <= k < n ==> is_space(s@[k]),
        decreases j,
    {
        j -= 1;
    }
    proof {
        let t = s@.subrange(i as int, n as int);
        assert(forall|k: int| j - i <= k < t.len() ==> is_space(t[k]));
        lemma_trim_end_index(t, j - i);
        assert(trim_end_spec(t) =~= s@.subrange(i as int, j as int));
    }
    s.substring_char(i, j)
}

// ---------------------------------------------------------------------------
// splitting a file into its lines
// ---------------------------------------------------------------------------

/// The lines of a text, split at `\n` or `\r\n`, without a trailing empty
/// line when the text ends with a line terminator.
pub open spec fn lines_spec(s: Seq<char>) -> Seq<Seq<char>>
    decreases s.len(),
{
    if s.len() == 0 {
        Seq::empty()
    } else if s[0] == '\n' {
        seq![Seq::<char>::empty()] + lines_spec(s.drop_first())
    } else if s[0] == '\r' && s.len() >= 2 && s[1] == '\n' {
        seq![Seq::<char>::empty()] + lines_spec(s.subrange(2, s.len() as int))
    } else {
        prepend_line(seq![s[0]], lines_spec(s.drop_first()))
    }
}

/// Prefix `cur` onto the first line of `r`; an unterminated empty rest
/// contributes no line at all.
pub open spec fn prepend_line(cur: Seq<char>, r: Seq<Seq<char>>) -> Seq<Seq<char>> {
    if r.len() == 0 {
        if cur.len() == 0 {
            Seq::empty()
        } else {
            seq![cur]
        }
    } else {
        seq![cur + r[0]] + r.drop_first()
    }
}

proof fn lemma_prepend_empty(r: Seq<Seq<char>>)
    ensures
        prepend_line(Seq::empty(), r) =~= r,
{
    if r.len() > 0 {
        assert(Seq::<char>::empty() + r[0] =~= r[0]);
        assert(prepend_line(Seq::empty(), r) =~= r);
    }
}

proof fn lemma_prepend_push(cur: Seq<char>, c: char, r: Seq<Seq<char>>)
    ensures
        prepend_line(cur, prepend_line(seq![c], r)) =~= prepend_line(cur.push(c), r),
{
    if r.len() == 0 {
        assert(cur + seq![c] =~= cur.push(c));
    } else {
        assert(cur + (seq![c] + r[0]) =~= cur.push(c) + r[0]);
        assert(prepend_line(cur, prepend_line(seq![c], r)) =~= prepend_line(cur.push(c), r));
    }
}

pub open spec fn views_of_strings(v: Seq<String>) -> Seq<Seq<char>> {
    v.map_values(|x: String| x@)
}

pub fn split_lines(s: &str) -> (r: Vec<String>)
    ensures
        views_of_strings(r@) == lines_spec(s@),
{
    let n = s.unicode_len();
    let mut out: Vec<String> = Vec::new();
    let mut cur = String::new();
    let mut cur_any = false;
    let mut i: usize = 0;
    proof {
        assert(s@.subrange(0, n as int) =~= s@);
        lemma_prepend_empty(lines_spec(s@));
    }
    while i < n
        invariant
            n == s@.len(),
            i <= n,
            cur_any == (cur@.len() != 0),
            lines_spec(s@) =~= views_of_strings(out@) + prepend_line(
                cur@,
                lines_spec(s@.subrange(i as int, n as int)),
            ),
        decreases n - i,
    {
        let ghost rest = s@.subrange(i as int, n as int);
        let c = s.get_char(i);
        assert(rest[0] == c);
        if c == '\n' {
            proof {
                assert(rest.drop_first() =~= s@.subrange(i + 1, n as int));
                let r2 = lines_spec(s@.subrange(i + 1, n as int));
                assert(lines_spec(rest) =~= seq![Seq::<char>::empty()] + r2);
                assert(prepend_line(cur@, lines_spec(rest)) =~= seq![cur@] + r2);
                lemma_prepend_empty(r2);
                assert(views_of_strings(out@.push(cur)) =~= views_of_strings(out@).push(cur@));
            }
            out.push(cur);
            cur = String::new();
            cur_any = false;
            i += 1;
        } else if c == '\r' && i + 1 < n && s.get_char(i + 1) == '\n' {
            proof {
                assert(rest.len() >= 2 && rest[1] == s@[i + 1]);
                assert(rest.subrange(2, rest.len() as int) =~= s@.subrange(i + 2, n as int));
                let r2 = lines_spec(s@.subrange(i + 2, n as int));
                assert(lines_spec(rest) =~= seq![Seq::<char>::empty()] + r2);
                assert(prepend_line(cur@, lines_spec(rest)) =~= seq![cur@] + r2);
                lemma_prepend_empty(r2);
                assert(views_of_strings(out@.push(cur)) =~= views_of_strings(out@).push(cur@));
            }
            out.push(cur);
            cur = String::new();
            cur_any = false;
            i += 2;
        } else {
            proof {
                assert(rest.drop_first() =~= s@.subrange(i + 1, n as int));
                let r2 = lines_spec(s@.subrange(i + 1, n as int));
                assert(lines_spec(rest) =~= prepend_line(seq![c], r2));
                lemma_prepend_push(cur@, c, r2);
            }
            push_char(&mut cur, c);
            cur_any = true;
            i += 1;
        }
    }
    proof {
        assert(s@.subrange(n as int, n as int) =~= Seq::<char>::empty());
        assert(lines_spec(Seq::<char>::empty()) =~= Seq::<Seq<char>>::empty());
    }
    if cur_any {
        proof {
            assert(views_of_strings(out@.push(cur)) =~= views_of_strings(out@).push(cur@));
        }
        out.push(cur);
    }
    assert(views_of_strings(out@) =~= lines_spec(s@));
    out
}

// ---------------------------------------------------------------------------
// lexicographic order on character sequences
// ---------------------------------------------------------------------------

pub open spec fn seq_char_le(a: Seq<char>, b: Seq<char>) -> bool
    decreases a.len(),
{
    if a.len() == 0 {
        true
    } else if b.len() == 0 {
        false
    } else if a[0] != b[0] {
        a[0] < b[0]
    } else {
        seq_char_le(a.drop_first(), b.drop_first())
    }
}

pub open spec fn seq_char_lt(a: Seq<char>, b: Seq<char>) -> bool {
    seq_char_le(a, b) && a != b
}

pub proof fn lemma_seq_char_le_refl(a: Seq<char>)
    ensures
        seq_char_le(a, a),
    decreases a.len(),
{
    if a.len() > 0 {
        lemma_seq_char_le_refl(a.drop_first());
    }
}

pub proof fn lemma_seq_char_le_total(a: Seq<char>, b: Seq<char>)
    ensures
        seq_char_le(a, b) || seq_char_le(b, a),
    decreases a.len(),
{
    if a.len() > 0 && b.len() > 0 && a[0] == b[0] {
        lemma_seq_char_le_total(a.drop_first(), b.drop_first());
    }
}

pub proof fn lemma_seq_char_le_antisym(a: Seq<char>, b: Seq<char>)
    requires
        seq_char_le(a, b),
        seq_char_le(b, a),
    ensures
        a == b,
    decreases a.len(),
{
    if a.len() == 0 {
        assert(b.len() == 0);
        assert(a =~= b);
    } else {
        assert(b.len() > 0);
        assert(a[0] == b[0]);
        lemma_seq_char_le_antisym(a.drop_first(), b.drop_first());
        assert(a =~= seq![a[0]] + a.drop_first());
        assert(b =~= seq![b[0]] + b.drop_first());
    }
}

pub proof fn lemma_seq_char_le_trans(a: Seq<char>, b: Seq<char>, c: Seq<char>)
    requires
        seq_char_le(a, b),
        seq_char_le(b, c),
    ensures
        seq_char_le(a, c),
    decreases a.len(),
{
    if a.len() > 0 && b.len() > 0 && c.len() > 0 {
        if a[0] == b[0] && b[0] == c[0] {
            lemma_seq_char_le_trans(a.drop_first(), b.drop_first(), c.drop_first());
        }
    }
}

/// If the first `i` characters agree, the order is decided by the suffixes.
proof fn lemma_seq_char_le_common_prefix(a: Seq<char>, b: Seq<char>, i: int)
    requires
        0 <= i <= a.len(),
        i <= b.len(),
        forall|k: int| 0 <= k < i ==> a[k] == b[k],
    ensures
        seq_char_le(a, b) == seq_char_le(
            a.subrange(i, a.len() as int),
            b.subrange(i, b.len() as int),
        ),
    decreases i,
{
    if i == 0 {
        assert(a.subrange(0, a.len() as int) =~= a);
        assert(b.subrange(0, b.len() as int) =~= b);
    } else {
        assert(a.len() > 0 && b.len() > 0 && a[0] == b[0]);
        let a1 = a.drop_first();
        let b1 = b.drop_first();
        assert(forall|k: int| 0 <= k < i - 1 ==> a1[k] == b1[k]);
        lemma_seq_char_le_common_prefix(a1, b1, i - 1);
        assert(a1.subrange(i - 1, a1.len() as int) =~= a.subrange(i, a.len() as int));
        assert(b1.subrange(i - 1, b1.len() as int) =~= b.subrange(i, b.len() as int));
    }
}

pub fn str_le(a: &str, b: &str) -> (r: bool)
    ensures
        r == seq_char_le(a@, b@),
{
    let na = a.unicode_len();
    let nb = b.unicode_len();
    let mut i: usize = 0;
    while i < na && i < nb
        invariant
            na == a@.len(),
            nb == b@.len(),
            i <= na,
            i <= nb,
            forall|k: int| 0 <= k < i ==> a@[k] == b@[k],
        decreases na - i,
    {
        let ca = a.get_char(i);
        let cb = b.get_char(i);
        if ca != cb {
            proof {
                lemma_seq_char_le_common_prefix(a@, b@, i as int);
                let sa = a@.subrange(i as int, na as int);
                let sb = b@.subrange(i as int, nb as int);
                assert(sa[0] == ca && sb[0] == cb);
            }
            return ca < cb;
        }
        i += 1;
    }
    proof {
        if i < nb {
            lemma_seq_char_le_common_prefix(a@, b@, i as int);
            assert(a@.subrange(i as int, na as int).len() == 0);
        } else if i < na {
            lemma_seq_char_le_common_prefix(a@, b@, i as int);
            assert(b@.subrange(i as int, nb as int).len() == 0);
            assert(a@.subrange(i as int, na as int).len() > 0);
        } else {
            assert(a@ =~= b@);
            lemma_seq_char_le_refl(a@);
        }
    }
    na <= nb
}

// ---------------------------------------------------------------------------
// decimal formatting
// ---------------------------------------------------------------------------

pub open spec fn dec_digit(d: nat) -> char {
    if d == 0 {
        '0'
    } else if d == 1 {
        '1'
    } else if d == 2 {
        '2'
    } else if d == 3 {
        '3'
    } else if d == 4 {
        '4'
    } else if d == 5 {
        '5'
    } else if d == 6 {
        '6'
    } else if d == 7 {
        '7'
    } else if d == 8 {
        '8'
    } else {
        '9'
    }
}

/// The usual decimal notation of a number, most significant digit first.
pub open spec fn dec_spec(n: nat) -> Seq<char>
    decreases n,
{
    if n < 10 {
        seq![dec_digit(n)]
    } else {
        dec_spec(n / 10) + seq![dec_digit(n % 10)]
    }
}

fn digit_char(d: usize) -> (c: char)
    requires
        d < 10,
    ensures
        c == dec_digit(d as nat),
{
    if d == 0 {
        '0'
    } else if d == 1 {
        '1'
    } else if d == 2 {
        '2'
    } else if d == 3 {
        '3'
    } else if d == 4 {
        '4'
    } else if d == 5 {
        '5'
    } else if d == 6 {
        '6'
    } else if d == 7 {
        '7'
    } else if d == 8 {
        '8'
    } else {
        '9'
    }
}

/// Appends the decimal notation of `n` to `s`.
pub fn push_decimal(s: &mut String, n: usize)
    ensures
        final(s)@ == old(s)@ + dec_spec(n as nat),
{
    let mut digits: Vec<char> = Vec::new();
    let mut m: usize = n;
    loop
        invariant_except_break
            dec_spec(n as nat) =~= dec_spec(m as nat) + digits@.reverse(),
        ensures
            dec_spec(n as nat) =~= digits@.reverse(),
        decreases m,
    {
        let d = digit_char(m % 10);
        proof {
            assert((digits@.push(d)).reverse() =~= seq![d] + digits@.reverse());
            if m >= 10 {
                assert(dec_spec(m as nat) == dec_spec((m as nat) / 10) + seq![
                    dec_digit((m as nat) % 10),
                ]);
                assert((m / 10) as nat == (m as nat) / 10);
                assert(dec_spec(m as nat) + digits@.reverse() =~= dec_spec((m / 10) as nat) + (
                digits@.push(d)).reverse());
            } else {
                assert(dec_spec(m as nat) =~= seq![d]);
            }
        }
        digits.push(d);
        if m < 10 {
            break ;
        }
        m = m / 10;
    }
    let k = digits.len();
    let mut i: usize = k;
    while i > 0
        invariant
            k == digits@.len(),
            i <= k,
            s@ =~= old(s)@ + digits@.reverse().subrange(0, (k - i) as int),
        decreases i,
    {
        i -= 1;
        proof {
            assert(digits@.reverse()[(k - 1 - i) as int] == digits@[i as int]);
            assert(digits@.reverse().subrange(0, (k - i) as int) =~= digits@.reverse().subrange(
                0,
                (k - 1 - i) as int,
            ).push(digits@[i as int]));
        }
        let c = digits[i];
        push_char(s, c);
    }
    proof {
        assert(digits@.reverse().subrange(0, k as int) =~= digits@.reverse());
        assert(s@ =~= old(s)@ + dec_spec(n as nat));
    }
}

/// A decimal digit character.
pub open spec fn is_digit_char(c: char) -> bool {
    c == '0' || c == '1' || c == '2' || c == '3' || c == '4' || c == '5' || c == '6' || c == '7'
        || c == '8' || c == '9'
}

/// The characters of a decimal notation are decimal digits; in particular
/// none of them is a space, a slash or a colon.
pub proof fn lemma_dec_spec_digits(n: nat)
    ensures
        dec_spec(n).len() > 0,
        forall|k: int| 0 <= k < dec_spec(n).len() ==> is_digit_char(#[trigger] dec_spec(n)[k]),
    decreases n,
{
    if n >= 10 {
        lemma_dec_spec_digits(n / 10);
    }
}

/// The text before the first occurrence of `c`, or all of `s` if absent.
pub open spec fn before_char(s: Seq<char>, c: char) -> Seq<char>
    decreases s.len(),
{
    if s.len() == 0 {
        s
    } else if s[0] == c {
        Seq::empty()
    } else {
        seq![s[0]] + before_char(s.drop_first(), c)
    }
}

proof fn lemma_before_char_index(s: Seq<char>, i: int, c: char)
    requires
        0 <= i <= s.len(),
        forall|k: int| 0 <= k < i ==> s[k] != c,
        i == s.len() || s[i] == c,
    ensures
        before_char(s, c) =~= s.subrange(0, i),
    decreases i,
{
    if i == 0 {
        if s.len() > 0 {
            assert(s[0] == c);
        }
    } else {
        assert(s[0] != c);
        let t = s.drop_first();
        assert(forall|k: int| 0 <= k < i - 1 ==> t[k] != c);
        lemma_before_char_index(t, i - 1, c);
        assert(seq![s[0]] + t.subrange(0, i - 1) =~= s.subrange(0, i));
    }
}

/// The prefix of `s` up to (excluding) the first occurrence of `c`.
pub fn take_before_char<'a>(s: &'a str, c: char) -> (r: &'a str)
    ensures
        r@ == before_char(s@, c),
{
    let n = s.unicode_len();
    match find_char(s, c) {
        Some(i) => {
            proof {
                lemma_before_char_index(s@, i as int, c);
            }
            s.substring_char(0, i)
        },
        None => {
            proof {
                lemma_before_char_index(s@, n as int, c);
                assert(s@.subrange(0, n as int) =~= s@);
            }
            s
        },
    }
}

} // verus!
