//! One ignore-file line compiled into a matchable rule: anchoring,
//! directory-only scope and negation are parsed here, and the final glob
//! verdict is delegated to the glob crate behind a trusted boundary.

use vstd::prelude::*;

use crate::text::{contains_char, is_space, trim_start_spec, trim_start_str};

verus! {

/// Whether `glob::Pattern::new` accepts this pattern text.
pub uninterp spec fn glob_compiles(text: Seq<char>) -> bool;

/// The verdict of `glob::Pattern::matches_with` for a matcher compiled from
/// `text`, applied to `path` under the three match options.
pub uninterp spec fn glob_verdict(
    text: Seq<char>,
    path: Seq<char>,
    case_sensitive: bool,
    require_literal_separator: bool,
    require_literal_leading_dot: bool,
) -> bool;

/// Relies on glob::Pattern::new: whether a pattern text compiles is a
/// function of the text alone, and the call returns Ok exactly on the texts
/// that glob accepts.
#[verifier::external_body]
fn glob_accepts(text: &str) -> (r: bool)
    ensures
        r == glob_compiles(text@),
{
    glob::Pattern::new(text).is_ok()
}

/// Relies on glob::Pattern::new and glob::Pattern::matches_with: the
/// compiled matcher is a function of the pattern text alone and the verdict
/// a function of the matcher, the path and the options, so the two calls are
/// taken together and the verdict is stated over the text. The `requires`
/// keeps the unwrap from panicking.
#[verifier::external_body]
fn glob_matches(
    text: &str,
    path: &str,
    case_sensitive: bool,
    require_literal_separator: bool,
    require_literal_leading_dot: bool,
) -> (r: bool)
    requires
        glob_compiles(text@),
    ensures
        r == glob_verdict(
            text@,
            path@,
            case_sensitive,
            require_literal_separator,
            require_literal_leading_dot,
        ),
{
    let options = glob::MatchOptions {
        case_sensitive,
        require_literal_separator,
        require_literal_leading_dot,
    };
    glob::Pattern::new(text).unwrap().matches_with(path, options)
}

/// A rule line that could not be turned into a glob matcher.
#[derive(Debug, PartialEq, Eq, Structural)]
pub struct ParseError;

/// The abstract content of a compiled rule.
pub struct PatternModel {
    pub raw: Seq<char>,
    pub glob_text: Seq<char>,
    pub directory: bool,
    pub anchored: bool,
    pub negation: bool,
}

pub struct Pattern {
    raw: String,
    glob_text: String,
    directory: bool,
    anchored: bool,
    negation: bool,
}

// ---------------------------------------------------------------------------
// construction, specified step by step after the raw line
// ---------------------------------------------------------------------------

/// A rule whose raw line ends in `/` applies only to directories.
pub open spec fn directory_only(raw: Seq<char>) -> bool {
    raw.len() > 0 && raw.last() == '/'
}

pub open spec fn after_dir_strip(raw: Seq<char>) -> Seq<char> {
    if directory_only(raw) {
        raw.drop_last()
    } else {
        raw
    }
}

/// A rule with an internal separator matches against the full path from the
/// root rather than against basenames.
pub open spec fn is_anchored(p: Seq<char>) -> bool {
    p.contains('/')
}

pub open spec fn is_negated(p: Seq<char>) -> bool {
    p.len() > 0 && p[0] == '!'
}

pub open spec fn after_negation(p: Seq<char>) -> Seq<char> {
    if is_negated(p) {
        trim_start_spec(p.drop_first())
    } else {
        p
    }
}

/// The absolute glob text: anchored rules are rooted (inserting a separator
/// unless one side already provides it), unanchored rules that do not start
/// with a wildcard get a `*` prefix so they match basenames anywhere.
pub open spec fn abs_glob(p: Seq<char>, root: Seq<char>, anchored: bool) -> Seq<char> {
    if anchored {
        if !(root.len() > 0 && root.last() == '/') && !(p.len() > 0 && p[0] == '/') {
            root + seq!['/'] + p
        } else {
            root + p
        }
    } else if !(p.len() > 0 && p[0] == '*') {
        seq!['*'] + p
    } else {
        p
    }
}

pub open spec fn glob_text_of(raw: Seq<char>, root: Seq<char>) -> Seq<char> {
    abs_glob(
        after_negation(after_dir_strip(raw)),
        root,
        is_anchored(after_dir_strip(raw)),
    )
}

/// The rule a raw line compiles to, when its glob text is accepted.
pub open spec fn pattern_model(raw: Seq<char>, root: Seq<char>) -> PatternModel {
    PatternModel {
        raw: raw,
        glob_text: glob_text_of(raw, root),
        directory: directory_only(raw),
        anchored: is_anchored(after_dir_strip(raw)),
        negation: is_negated(after_dir_strip(raw)),
    }
}

/// The verdict of one rule on a path: a directory-only rule never applies to
/// a file (its answer is then just its negation flag), otherwise the glob
/// verdict is taken case-insensitively, requiring literal separators exactly
/// for anchored rules, and flipped by negation.
pub open spec fn pattern_verdict(p: PatternModel, path: Seq<char>, is_dir: bool) -> bool {
    if p.directory && !is_dir {
        p.negation
    } else {
        p.negation != glob_verdict(p.glob_text, path, false, p.anchored, false)
    }
}

impl View for Pattern {
    type V = PatternModel;

    closed spec fn view(&self) -> PatternModel {
        PatternModel {
            raw: self.raw@,
            glob_text: self.glob_text@,
            directory: self.directory,
            anchored: self.anchored,
            negation: self.negation,
        }
    }
}

impl Pattern {
    #[verifier::type_invariant]
    spec fn wf(self) -> bool {
        glob_compiles(self.glob_text@)
    }

    /// Compiles one raw ignore line against the tree root. A line whose glob
    /// text the glob crate rejects is a recoverable parse error.
    pub fn new(raw_pattern: &str, root: &str) -> (r: Result<Pattern, ParseError>)
        ensures
            r is Ok <==> glob_compiles(glob_text_of(raw_pattern@, root@)),
            r matches Ok(p) ==> p@ == pattern_model(raw_pattern@, root@),
    {
        let n = raw_pattern.unicode_len();
        let directory = n > 0 && raw_pattern.get_char(n - 1) == '/';
        let stripped = if directory {
            raw_pattern.substring_char(0, n - 1)
        } else {
            raw_pattern
        };
        proof {
            if directory {
                assert(stripped@ =~= after_dir_strip(raw_pattern@));
            } else {
                assert(raw_pattern@.subrange(0, n as int) =~= raw_pattern@);
                assert(stripped@ =~= after_dir_strip(raw_pattern@));
            }
        }
        let sn = stripped.unicode_len();
        let anchored = contains_char(stripped, '/');
        let negation = sn > 0 && stripped.get_char(0) == '!';
        let pat = if negation {
            let tail = stripped.substring_char(1, sn);
            proof {
                assert(tail@ =~= stripped@.drop_first());
            }
            trim_start_str(tail)
        } else {
            stripped
        };
        assert(pat@ == after_negation(stripped@));
        let glob_text = abs_pattern(pat, root, anchored);
        assert(glob_text@ == glob_text_of(raw_pattern@, root@));
        if glob_accepts(glob_text.as_str()) {
            Ok(
                Pattern {
                    raw: raw_pattern.to_owned(),
                    glob_text,
                    directory,
                    anchored,
                    negation,
                },
            )
        } else {
            Err(ParseError)
        }
    }

    /// Whether this rule excludes the given path.
    pub fn is_excluded(&self, path: &str, directory: bool) -> (r: bool)
        ensures
            r == pattern_verdict(self@, path@, directory),
    {
        proof {
            use_type_invariant(self);
        }
        if self.directory && !directory {
            self.negation
        } else {
            self.negation ^ glob_matches(self.glob_text.as_str(), path, false, self.anchored, false)
        }
    }
}

fn abs_pattern(pattern: &str, root: &str, anchored: bool) -> (r: String)
    ensures
        r@ == abs_glob(pattern@, root@, anchored),
{
    if anchored {
        anchored_pattern(pattern, root)
    } else {
        let n = pattern.unicode_len();
        if !(n > 0 && pattern.get_char(0) == '*') {
            unanchored_pattern(pattern)
        } else {
            pattern.to_owned()
        }
    }
}

fn unanchored_pattern(pattern: &str) -> (r: String)
    ensures
        r@ == seq!['*'] + pattern@,
{
    let mut root_path = String::new();
    crate::text::push_char(&mut root_path, '*');
    let r = root_path.concat(pattern);
    proof {
        assert(r@ =~= seq!['*'] + pattern@);
    }
    r
}

fn anchored_pattern(pattern: &str, root: &str) -> (r: String)
    ensures
        r@ == abs_glob(pattern@, root@, true),
{
    let rn = root.unicode_len();
    let pn = pattern.unicode_len();
    let mut root_path = root.to_owned();
    let root_slash = rn > 0 && root.get_char(rn - 1) == '/';
    let pat_slash = pn > 0 && pattern.get_char(0) == '/';
    if !root_slash && !pat_slash {
        crate::text::push_char(&mut root_path, '/');
        let r = root_path.concat(pattern);
        proof {
            assert(r@ =~= root@ + seq!['/'] + pattern@);
        }
        r
    } else {
        let r = root_path.concat(pattern);
        proof {
            assert(r@ =~= root@ + pattern@);
        }
        r
    }
}

/// The verdict of a rule is pure: on one and the same rule, path and kind of
/// entry, two verdicts are always equal.
pub proof fn lemma_is_excluded_pure(
    p: PatternModel,
    path: Seq<char>,
    is_dir: bool,
    r1: bool,
    r2: bool,
)
    requires
        r1 == pattern_verdict(p, path, is_dir),
        r2 == pattern_verdict(p, path, is_dir),
    ensures
        r1 == r2,
{
}

} // verus!
