//! The marker scanner: a line carries a marker when a line-comment token is
//! followed (over optional spacing) by the literal `TODO`, then a colon; the
//! payload is the trimmed free text after the colon. The scanner extracts
//! markers from whole file contents, and the writer rebuilds a marker line
//! with an issue identifier embedded.

use vstd::prelude::*;
use vstd::string::StringExecFns;

use crate::matched::{MatchedLine, MatchedModel};
use crate::text::{dec_spec, is_digit_char, is_space, lemma_dec_spec_digits, lines_spec,
    push_char, push_decimal, space_char, split_lines, trim_spec, trim_str, views_of_strings};

verus! {

/// The first index at or after `i` holding a non-space character, or the end
/// of the line.
pub open spec fn skip_spaces(s: Seq<char>, i: int) -> int
    decreases s.len() - i,
{
    if 0 <= i < s.len() && is_space(s[i]) {
        skip_spaces(s, i + 1)
    } else {
        i
    }
}

pub proof fn lemma_skip_spaces(s: Seq<char>, i: int)
    requires
        0 <= i <= s.len(),
    ensures
        i <= skip_spaces(s, i) <= s.len(),
        forall|k: int| i <= k < skip_spaces(s, i) ==> is_space(s[k]),
        skip_spaces(s, i) == s.len() || !is_space(s[skip_spaces(s, i)]),
    decreases s.len() - i,
{
    if i < s.len() && is_space(s[i]) {
        lemma_skip_spaces(s, i + 1);
    }
}

/// Whether a marker occurrence starts at index `i`: `//`, optional spaces,
/// `TODO`, optional spaces, `:`.
pub open spec fn marker_at(s: Seq<char>, i: int) -> bool {
    let j = skip_spaces(s, i + 2);
    let k = skip_spaces(s, j + 4);
    &&& 0 <= i
    &&& i + 2 <= s.len()
    &&& s[i] == '/'
    &&& s[i + 1] == '/'
    &&& j + 4 <= s.len()
    &&& s[j] == 'T'
    &&& s[j + 1] == 'O'
    &&& s[j + 2] == 'D'
    &&& s[j + 3] == 'O'
    &&& k < s.len()
    &&& s[k] == ':'
}

/// The first index at or after `i` where a marker occurrence starts, or -1.
pub open spec fn first_marker_from(s: Seq<char>, i: int) -> int
    decreases s.len() - i,
{
    if i + 2 > s.len() {
        -1
    } else if marker_at(s, i) {
        i
    } else {
        first_marker_from(s, i + 1)
    }
}

pub proof fn lemma_first_marker_props(s: Seq<char>, i: int)
    requires
        0 <= i,
    ensures
        first_marker_from(s, i) == -1 ==> forall|t: int| i <= t ==> !marker_at(s, t),
        first_marker_from(s, i) >= 0 ==> i <= first_marker_from(s, i) && marker_at(
            s,
            first_marker_from(s, i),
        ) && (forall|t: int| i <= t < first_marker_from(s, i) ==> !marker_at(s, t)),
    decreases s.len() - i,
{
    if i + 2 > s.len() {
        assert forall|t: int| i <= t implies !marker_at(s, t) by {
            assert(t + 2 > s.len());
        }
    } else if marker_at(s, i) {
    } else {
        lemma_first_marker_props(s, i + 1);
    }
}

pub open spec fn line_has_marker(s: Seq<char>) -> bool {
    first_marker_from(s, 0) >= 0
}

/// Where the captured payload of the marker starting at `i` begins: the
/// first non-space character after the colon.
pub open spec fn payload_start(s: Seq<char>, i: int) -> int {
    skip_spaces(s, skip_spaces(s, skip_spaces(s, i + 2) + 4) + 1)
}

/// The payload of the first marker of a line, trimmed.
pub open spec fn marker_payload(s: Seq<char>) -> Seq<char> {
    trim_spec(s.subrange(payload_start(s, first_marker_from(s, 0)), s.len() as int))
}

// ---------------------------------------------------------------------------
// executable scanning
// ---------------------------------------------------------------------------

fn skip_spaces_exec(s: &str, i: usize) -> (r: usize)
    requires
        i <= s@.len(),
    ensures
        r == skip_spaces(s@, i as int),
        i <= r <= s@.len(),
{
    let n = s.unicode_len();
    let mut j = i;
    while j < n && space_char(s.get_char(j))
        invariant
            i <= j <= n,
            n == s@.len(),
            skip_spaces(s@, i as int) == skip_spaces(s@, j as int),
        decreases n - j,
    {
        j += 1;
    }
    j
}

fn marker_at_exec(s: &str, i: usize) -> (r: bool)
    requires
        i + 2 <= s@.len(),
    ensures
        r == marker_at(s@, i as int),
{
    let n = s.unicode_len();
    if s.get_char(i) != '/' || s.get_char(i + 1) != '/' {
        return false;
    }
    let j = skip_spaces_exec(s, i + 2);
    if n - j < 4 {
        return false;
    }
    if s.get_char(j) != 'T' || s.get_char(j + 1) != 'O' || s.get_char(j + 2) != 'D' || s.get_char(
        j + 3,
    ) != 'O' {
        return false;
    }
    let k = skip_spaces_exec(s, j + 4);
    k < n && s.get_char(k) == ':'
}

/// The start of the first marker of a line, if any.
fn find_marker(s: &str) -> (r: Option<usize>)
    ensures
        match r {
            Some(i) => first_marker_from(s@, 0) == i as int,
            None => first_marker_from(s@, 0) == -1,
        },
{
    let n = s.unicode_len();
    let mut i: usize = 0;
    while i < n && i + 1 < n
        invariant
            i <= n,
            n == s@.len(),
            first_marker_from(s@, 0) == first_marker_from(s@, i as int),
        decreases n - i,
    {
        if marker_at_exec(s, i) {
            return Some(i);
        }
        i += 1;
    }
    assert(i + 2 > n);
    None
}

/// Scans one line: the trimmed payload of its first marker, if the line
/// carries one.
pub fn scan_line(line: &str) -> (r: Option<String>)
    ensures
        r is Some <==> line_has_marker(line@),
        r matches Some(p) ==> p@ == marker_payload(line@),
{
    let n = line.unicode_len();
    match find_marker(line) {
        Some(i) => {
            proof {
                lemma_first_marker_props(line@, 0);
                lemma_skip_spaces(line@, i + 2);
                lemma_skip_spaces(line@, skip_spaces(line@, i + 2) + 4);
                lemma_skip_spaces(
                    line@,
                    skip_spaces(line@, skip_spaces(line@, i + 2) + 4) + 1,
                );
            }
            let j = skip_spaces_exec(line, i + 2);
            let k = skip_spaces_exec(line, j + 4);
            let ps = skip_spaces_exec(line, k + 1);
            let cap = line.substring_char(ps, n);
            Some(trim_str(cap).to_owned())
        },
        None => None,
    }
}

/// The matches of a run of lines, `base` being the 1-based number of the
/// first of them: one entry per line that carries a marker, in line order.
pub open spec fn scan_lines_spec(ls: Seq<Seq<char>>, base: nat) -> Seq<MatchedModel>
    decreases ls.len(),
{
    if ls.len() == 0 {
        Seq::empty()
    } else {
        let rest = scan_lines_spec(ls.drop_first(), base + 1);
        if line_has_marker(ls[0]) {
            seq![MatchedModel { line_num: base, line: marker_payload(ls[0]) }] + rest
        } else {
            rest
        }
    }
}

/// The matches of whole file contents, lines numbered from 1.
pub open spec fn scan_spec(contents: Seq<char>) -> Seq<MatchedModel> {
    scan_lines_spec(lines_spec(contents), 1)
}

/// Scanning is a pure read: the matches of a file are a function of its
/// contents. Line numbers come out strictly ascending, within the line
/// count, and each entry carries the payload of the line it names.
pub proof fn lemma_scan_lines_props(ls: Seq<Seq<char>>, base: nat)
    ensures
        forall|a: int, b: int|
            0 <= a < b < scan_lines_spec(ls, base).len() ==> #[trigger] scan_lines_spec(
                ls,
                base,
            )[a].line_num < #[trigger] scan_lines_spec(ls, base)[b].line_num,
        forall|a: int|
            0 <= a < scan_lines_spec(ls, base).len() ==> base <= #[trigger] scan_lines_spec(
                ls,
                base,
            )[a].line_num < base + ls.len() && line_has_marker(
                ls[scan_lines_spec(ls, base)[a].line_num - base],
            ) && scan_lines_spec(ls, base)[a].line == marker_payload(
                ls[scan_lines_spec(ls, base)[a].line_num - base],
            ),
    decreases ls.len(),
{
    if ls.len() > 0 {
        lemma_scan_lines_props(ls.drop_first(), base + 1);
        let rest = scan_lines_spec(ls.drop_first(), base + 1);
        assert(forall|a: int|
            0 <= a < rest.len() ==> ls.drop_first()[#[trigger] rest[a].line_num - (base + 1)]
                =~= ls[rest[a].line_num - base]);
    }
}

/// The scan misses nothing: every line that carries a marker has an entry
/// under its own line number.
pub proof fn lemma_scan_lines_complete(ls: Seq<Seq<char>>, base: nat)
    ensures
        forall|l: int|
            0 <= l < ls.len() && line_has_marker(#[trigger] ls[l]) ==> exists|a: int|
                0 <= a < scan_lines_spec(ls, base).len() && #[trigger] scan_lines_spec(
                    ls,
                    base,
                )[a].line_num == base + l,
    decreases ls.len(),
{
    if ls.len() > 0 {
        lemma_scan_lines_complete(ls.drop_first(), base + 1);
        let r = scan_lines_spec(ls, base);
        let rest = scan_lines_spec(ls.drop_first(), base + 1);
        assert forall|l: int| 0 <= l < ls.len() && line_has_marker(
            #[trigger] ls[l],
        ) implies exists|a: int|
            0 <= a < r.len() && #[trigger] r[a].line_num == base + l by {
            if l == 0 {
                assert(r[0].line_num == base + 0);
            } else {
                assert(ls.drop_first()[l - 1] == ls[l]);
                let a = choose|a: int|
                    0 <= a < rest.len() && #[trigger] rest[a].line_num == (base + 1) + (l - 1);
                if line_has_marker(ls[0]) {
                    assert(r[a + 1] == rest[a]);
                } else {
                    assert(r[a] == rest[a]);
                }
            }
        }
    }
}

/// Extracts the ordered matches of one file's contents.
pub fn scan_file(contents: &str) -> (r: Vec<MatchedLine>)
    ensures
        r@.map_values(|m: MatchedLine| m@) == scan_spec(contents@),
{
    let lines = split_lines(contents);
    let ghost lviews = views_of_strings(lines@);
    let mut out: Vec<MatchedLine> = Vec::new();
    let mut i: usize = 0;
    proof {
        assert(lviews.skip(0) =~= lviews);
    }
    while i < lines.len()
        invariant
            i <= lines.len(),
            lviews == views_of_strings(lines@),
            scan_lines_spec(lviews, 1) =~= out@.map_values(|m: MatchedLine| m@)
                + scan_lines_spec(lviews.skip(i as int), (i + 1) as nat),
        decreases lines.len() - i,
    {
        let ghost rest = lviews.skip(i as int);
        proof {
            assert(rest[0] == lines@[i as int]@);
            assert(rest.drop_first() =~= lviews.skip(i + 1));
        }
        match scan_line(lines[i].as_str()) {
            Some(payload) => {
                let m = MatchedLine::new(i + 1, payload.as_str());
                proof {
                    assert((out@.push(m)).map_values(|q: MatchedLine| q@) =~= out@.map_values(
                        |q: MatchedLine| q@,
                    ).push(m@));
                }
                out.push(m);
            },
            None => {},
        }
        i += 1;
    }
    proof {
        assert(lviews.skip(lines@.len() as int) =~= Seq::<Seq<char>>::empty());
    }
    out
}

// ---------------------------------------------------------------------------
// rewriting one marker line
// ---------------------------------------------------------------------------

pub open spec fn todo_tag() -> Seq<char> {
    seq!['/', '/', ' ', 'T', 'O', 'D', 'O', '(', '#']
}

pub open spec fn tag_close() -> Seq<char> {
    seq![')', ' ', ':', ' ']
}

/// The rewritten form of a marker line: everything before the first marker
/// is kept, the marker is replaced by `// TODO(#<id>) : `, and the raw
/// captured payload follows.
pub open spec fn annotated_line(s: Seq<char>, id: nat) -> Seq<char> {
    let i = first_marker_from(s, 0);
    s.subrange(0, i) + todo_tag() + dec_spec(id) + tag_close() + s.subrange(
        payload_start(s, i),
        s.len() as int,
    )
}

/// No marker occurrence starts anywhere in this text.
pub open spec fn marker_free(s: Seq<char>) -> bool {
    forall|m: int| !marker_at(s, m)
}

/// The raw captured text of a line's first marker: everything from the
/// payload start to the end of the line, untrimmed.
pub open spec fn capture_of(s: Seq<char>) -> Seq<char> {
    s.subrange(payload_start(s, first_marker_from(s, 0)), s.len() as int)
}

/// `skip_spaces` is determined by its characterization: spaces up to `r`,
/// then the end or a non-space.
proof fn lemma_skip_spaces_determined(s: Seq<char>, t: int, r: int)
    requires
        0 <= t <= r <= s.len(),
        forall|u: int| t <= u < r ==> is_space(s[u]),
        r == s.len() || !is_space(s[r]),
    ensures
        skip_spaces(s, t) == r,
    decreases r - t,
{
    if t < r {
        lemma_skip_spaces_determined(s, t + 1, r);
    }
}

/// Skipping spaces inside the suffix of a concatenation ignores the head.
proof fn lemma_skip_spaces_suffix(x: Seq<char>, q: Seq<char>, t: int)
    requires
        t >= 0,
    ensures
        skip_spaces(x + q, x.len() + t) == x.len() + skip_spaces(q, t),
    decreases (if t <= q.len() { q.len() - t } else { 0 }),
{
    let n = x.len() as int;
    if t < q.len() && is_space(q[t]) {
        assert((x + q)[n + t] == q[t]);
        lemma_skip_spaces_suffix(x, q, t + 1);
    } else {
        if t < q.len() {
            assert((x + q)[n + t] == q[t]);
        }
    }
}

proof fn lemma_skip_spaces_ge(s: Seq<char>, t: int)
    requires
        t >= 0,
    ensures
        skip_spaces(s, t) >= t,
    decreases (if t <= s.len() { s.len() - t } else { 0 }),
{
    if 0 <= t < s.len() && is_space(s[t]) {
        lemma_skip_spaces_ge(s, t + 1);
    }
}

/// A marker occurrence inside the suffix of a concatenation is an
/// occurrence in that suffix, and conversely.
proof fn lemma_marker_at_suffix(x: Seq<char>, q: Seq<char>, r: int)
    requires
        r >= 0,
    ensures
        marker_at(x + q, x.len() + r) == marker_at(q, r),
{
    let n = x.len() as int;
    lemma_skip_spaces_ge(q, r + 2);
    lemma_skip_spaces_suffix(x, q, r + 2);
    let jq = skip_spaces(q, r + 2);
    lemma_skip_spaces_ge(q, jq + 4);
    lemma_skip_spaces_suffix(x, q, jq + 4);
    let kq = skip_spaces(q, jq + 4);
    assert(skip_spaces(x + q, (n + r) + 2) == n + jq);
    assert(skip_spaces(x + q, (n + jq) + 4) == n + kq);
    if marker_at(x + q, n + r) {
        assert(r + 2 <= q.len() && jq + 4 <= q.len() && kq < q.len());
        assert((x + q)[n + r] == q[r]);
        assert((x + q)[n + r + 1] == q[r + 1]);
        assert((x + q)[n + jq] == q[jq]);
        assert((x + q)[n + jq + 1] == q[jq + 1]);
        assert((x + q)[n + jq + 2] == q[jq + 2]);
        assert((x + q)[n + jq + 3] == q[jq + 3]);
        assert((x + q)[n + kq] == q[kq]);
        assert(marker_at(q, r));
    }
    if marker_at(q, r) {
        assert(r + 2 <= q.len() && jq + 4 <= q.len() && kq < q.len());
        assert((x + q)[n + r] == q[r]);
        assert((x + q)[n + r + 1] == q[r + 1]);
        assert((x + q)[n + jq] == q[jq]);
        assert((x + q)[n + jq + 1] == q[jq + 1]);
        assert((x + q)[n + jq + 2] == q[jq + 2]);
        assert((x + q)[n + jq + 3] == q[jq + 3]);
        assert((x + q)[n + kq] == q[kq]);
        assert(marker_at(x + q, n + r));
    }
}

/// The round-trip core: once a marker line whose capture holds no further
/// marker is annotated, the scanner no longer finds any marker in it. The
/// code before the marker is unchanged and could not start a marker (the
/// original line's first marker was further right), the inserted tag puts
/// `(#` between `TODO` and the colon, and the capture is clean by
/// assumption.
#[verifier::rlimit(100)]
pub proof fn lemma_annotated_line_clean(s: Seq<char>, id: nat)
    requires
        line_has_marker(s),
        marker_free(capture_of(s)),
    ensures
        !line_has_marker(annotated_line(s, id)),
{
    let i = first_marker_from(s, 0);
    lemma_first_marker_props(s, 0);
    assert(marker_at(s, i));
    let j0 = skip_spaces(s, i + 2);
    lemma_skip_spaces(s, i + 2);
    lemma_skip_spaces(s, j0 + 4);
    let k0 = skip_spaces(s, j0 + 4);
    lemma_skip_spaces(s, k0 + 1);
    let ps = payload_start(s, i);
    assert(0 <= ps <= s.len());
    let p = s.subrange(0, i);
    let d = dec_spec(id);
    let dlen = d.len() as int;
    let cap = s.subrange(ps, s.len() as int);
    assert(cap == capture_of(s));
    lemma_dec_spec_digits(id);
    let head = p + todo_tag() + d + tag_close();
    let ann = annotated_line(s, id);
    assert(ann =~= head + cap);
    let qs = i + 9 + dlen + 4;
    assert(head.len() == qs);

    // the characters of the annotated line, region by region
    assert forall|u: int| 0 <= u < i implies ann[u] == s[u] by {
        assert(ann[u] == p[u]);
    }
    assert(todo_tag()[0] == '/' && todo_tag()[1] == '/' && todo_tag()[2] == ' ');
    assert(todo_tag()[3] == 'T' && todo_tag()[4] == 'O' && todo_tag()[5] == 'D');
    assert(todo_tag()[6] == 'O' && todo_tag()[7] == '(' && todo_tag()[8] == '#');
    assert(tag_close()[0] == ')' && tag_close()[1] == ' ' && tag_close()[2] == ':'
        && tag_close()[3] == ' ');
    assert forall|u: int| i <= u < i + 9 implies ann[u] == todo_tag()[u - i] by {}
    assert forall|u: int| i + 9 <= u < i + 9 + dlen implies is_digit_char(ann[u]) by {
        assert(ann[u] == d[u - i - 9]);
    }
    assert forall|u: int| i + 9 + dlen <= u < qs implies ann[u] == tag_close()[u - i - 9
        - dlen] by {}
    assert forall|u: int| qs <= u < ann.len() implies ann[u] == cap[u - qs] by {}
    assert(s[i] == '/' && s[i + 1] == '/');
    assert(ann[i] == '/' && ann[i + 1] == '/' && ann[i + 2] == ' ');
    assert(ann[i + 3] == 'T' && ann[i + 4] == 'O' && ann[i + 5] == 'D' && ann[i + 6] == 'O');
    assert(ann[i + 7] == '(');
    assert(ann[qs - 4] == ')' && ann[qs - 3] == ' ' && ann[qs - 2] == ':' && ann[qs - 1] == ' ');

    assert forall|m: int| !marker_at(ann, m) by {
        if marker_at(ann, m) {
            let j = skip_spaces(ann, m + 2);
            let k = skip_spaces(ann, j + 4);
            lemma_skip_spaces(ann, m + 2);
            lemma_skip_spaces(ann, j + 4);
            if m >= qs {
                lemma_marker_at_suffix(head, cap, m - qs);
                assert(marker_at(cap, m - qs));
                assert(false);
            } else if m == i {
                // the annotated marker itself: '(' follows TODO, not ':'
                lemma_skip_spaces_determined(ann, i + 2, i + 3);
                assert(j == i + 3);
                lemma_skip_spaces_determined(ann, i + 7, i + 7);
                assert(k == i + 7);
                assert(ann[k] == '(');
                assert(false);
            } else if m == i - 1 {
                // scan starts on the last prefix character: the slash pair
                // would continue into the tag, where a slash follows, not
                // TODO text
                assert(ann[m + 2] == ann[i + 1]);
                assert(!is_space(ann[i + 1]));
                lemma_skip_spaces_determined(ann, i + 1, i + 1);
                assert(j == i + 1);
                assert(ann[j] == '/');
                assert(false);
            } else if m < i - 1 {
                // scan starts in the unchanged prefix
                assert(j <= i) by {
                    if j > i {
                        assert(is_space(ann[i]));
                    }
                }
                if j == i {
                    assert(ann[j] == '/');
                    assert(false);
                } else if j + 4 > i {
                    // TODO would straddle the prefix boundary, but the
                    // boundary character is a slash
                    assert(ann[j] == 'T' && ann[j + 1] == 'O' && ann[j + 2] == 'D' && ann[j + 3]
                        == 'O');
                    assert(ann[i] == '/');
                    assert(false);
                } else {
                    assert(k <= i) by {
                        if k > i {
                            assert(is_space(ann[i]));
                        }
                    }
                    if k == i {
                        assert(ann[k] == '/');
                        assert(false);
                    } else {
                        // the whole occurrence lies in the prefix, where the
                        // original line is unchanged: the original line had a
                        // marker before its first marker
                        assert forall|u: int| m + 2 <= u < j implies is_space(s[u]) by {
                            assert(ann[u] == s[u]);
                        }
                        assert(!is_space(s[j]));
                        lemma_skip_spaces_determined(s, m + 2, j);
                        assert forall|u: int| j + 4 <= u < k implies is_space(s[u]) by {
                            assert(ann[u] == s[u]);
                        }
                        assert(!is_space(s[k]));
                        lemma_skip_spaces_determined(s, j + 4, k);
                        assert(s[j] == 'T' && s[j + 1] == 'O' && s[j + 2] == 'D' && s[j + 3]
                            == 'O');
                        assert(s[k] == ':');
                        assert(marker_at(s, m));
                        assert(false);
                    }
                }
            } else {
                // scan starts inside the inserted tag or identifier: no two
                // consecutive slashes exist there
                assert(i < m < qs);
                if m == i + 1 {
                    assert(ann[m + 1] == ' ');
                    assert(false);
                } else {
                    assert(i + 2 <= m < qs);
                    assert(ann[m] != '/') by {
                        if i + 2 <= m < i + 9 {
                            assert(ann[m] == todo_tag()[m - i]);
                        } else if i + 9 <= m < i + 9 + dlen {
                            assert(is_digit_char(ann[m]));
                        } else {
                            assert(ann[m] == tag_close()[m - i - 9 - dlen]);
                        }
                    }
                    assert(false);
                }
            }
        }
    }
    if line_has_marker(ann) {
        lemma_first_marker_props(ann, 0);
        assert(marker_at(ann, first_marker_from(ann, 0)));
    }
}

/// Rebuilds a marker line with the allocated identifier embedded.
pub fn rewrite_line(line: &str, id: usize) -> (r: String)
    requires
        line_has_marker(line@),
    ensures
        r@ == annotated_line(line@, id as nat),
{
    let n = line.unicode_len();
    let found = find_marker(line);
    proof {
        lemma_first_marker_props(line@, 0);
    }
    let i = match found {
        Some(i) => i,
        None => {
            proof {
                assert(false);
            }
            0
        },
    };
    proof {
        lemma_skip_spaces(line@, i + 2);
        lemma_skip_spaces(line@, skip_spaces(line@, i + 2) + 4);
        lemma_skip_spaces(line@, skip_spaces(line@, skip_spaces(line@, i + 2) + 4) + 1);
    }
    let j = skip_spaces_exec(line, i + 2);
    let k = skip_spaces_exec(line, j + 4);
    let ps = skip_spaces_exec(line, k + 1);
    let mut out = String::new();
    let mut t: usize = 0;
    while t < i
        invariant
            t <= i,
            i <= n == line@.len(),
            out@ =~= line@.subrange(0, t as int),
        decreases i - t,
    {
        proof {
            assert(line@.subrange(0, t as int).push(line@[t as int]) =~= line@.subrange(
                0,
                t + 1,
            ));
        }
        push_char(&mut out, line.get_char(t));
        t += 1;
    }
    out.append("// TODO(#");
    proof {
        reveal_strlit("// TODO(#");
        assert(("// TODO(#")@ =~= todo_tag());
    }
    push_decimal(&mut out, id);
    out.append(") : ");
    proof {
        reveal_strlit(") : ");
        assert((") : ")@ =~= tag_close());
    }
    let ghost head = line@.subrange(0, i as int) + todo_tag() + dec_spec(id as nat) + tag_close();
    assert(out@ =~= head);
    let mut t2: usize = ps;
    while t2 < n
        invariant
            ps <= t2 <= n,
            n == line@.len(),
            out@ =~= head + line@.subrange(ps as int, t2 as int),
        decreases n - t2,
    {
        proof {
            assert(line@.subrange(ps as int, t2 as int).push(line@[t2 as int]) =~= line@.subrange(
                ps as int,
                t2 + 1,
            ));
        }
        push_char(&mut out, line.get_char(t2));
        t2 += 1;
    }
    proof {
        assert(out@ =~= annotated_line(line@, id as nat));
    }
    out
}

} // verus!
