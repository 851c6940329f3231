//! The ignore filter: an ordered rule set bound to a tree root, the
//! any-rule-excludes verdict over it, and the per-entry decisions of the
//! pruning tree walk. Reading the ignore file and enumerating directories is
//! left to the caller; every decision about their contents is made here.

use vstd::prelude::*;

use crate::pattern::{Pattern, PatternModel, pattern_model, pattern_verdict, glob_compiles,
    glob_text_of};
use crate::text::{lines_spec, split_lines, str_eq, trim_spec, trim_str, views_of_strings};

verus! {

/// The abstract content of a filter: its rules in file order, the tree root
/// and the files confirmed non-excluded so far.
pub struct GitignoreModel {
    pub patterns: Seq<PatternModel>,
    pub root: Seq<char>,
    pub included: Seq<Seq<char>>,
}

pub struct Gitignore {
    patterns: Vec<Pattern>,
    root: String,
    included: Vec<String>,
}

impl View for Gitignore {
    type V = GitignoreModel;

    closed spec fn view(&self) -> GitignoreModel {
        GitignoreModel {
            patterns: self.patterns@.map_values(|p: Pattern| p@),
            root: self.root@,
            included: views_of_strings(self.included@),
        }
    }
}

/// A line of the ignore file becomes a rule candidate unless it is blank or
/// a comment.
pub open spec fn keeps_line(line: Seq<char>) -> bool {
    trim_spec(line).len() != 0 && !(line.len() > 0 && line[0] == '#')
}

/// The rules compiled from the candidate lines, in file order; lines whose
/// glob text is rejected are dropped.
pub open spec fn rules_of(lines: Seq<Seq<char>>, root: Seq<char>) -> Seq<PatternModel>
    decreases lines.len(),
{
    if lines.len() == 0 {
        Seq::empty()
    } else {
        let rest = rules_of(lines.drop_first(), root);
        if keeps_line(lines[0]) && glob_compiles(glob_text_of(lines[0], root)) {
            seq![pattern_model(lines[0], root)] + rest
        } else {
            rest
        }
    }
}

/// The whole filter excludes a path when some rule of it excludes the path;
/// a negation rule further down cannot undo an exclusion further up.
pub open spec fn filter_verdict(rules: Seq<PatternModel>, path: Seq<char>, is_dir: bool) -> bool {
    exists|i: int| 0 <= i < rules.len() && pattern_verdict(rules[i], path, is_dir)
}

/// The version-control directory and the ignore file itself are always
/// skipped by the walk, independent of the rules.
pub open spec fn basename(p: Seq<char>) -> Seq<char>
    decreases p.len(),
{
    if p.len() == 0 {
        p
    } else if p.last() == '/' {
        Seq::empty()
    } else {
        basename(p.drop_last()).push(p.last())
    }
}

pub open spec fn git_dir_name() -> Seq<char> {
    seq!['.', 'g', 'i', 't']
}

pub open spec fn ignore_file_name() -> Seq<char> {
    seq!['.', 'g', 'i', 't', 'i', 'g', 'n', 'o', 'r', 'e']
}

pub open spec fn skip_entry(path: Seq<char>) -> bool {
    basename(path) == git_dir_name() || basename(path) == ignore_file_name()
}

/// A walk descends into a directory entry iff it is not hard-skipped and no
/// rule excludes it as a directory.
pub open spec fn entry_descend(rules: Seq<PatternModel>, path: Seq<char>, is_dir: bool) -> bool {
    is_dir && !skip_entry(path) && !filter_verdict(rules, path, true)
}

/// A file entry is recorded iff it is not hard-skipped and no rule excludes
/// it as a file.
pub open spec fn entry_included(rules: Seq<PatternModel>, path: Seq<char>, is_dir: bool) -> bool {
    !is_dir && !skip_entry(path) && !filter_verdict(rules, path, false)
}

proof fn lemma_basename_index(p: Seq<char>, i: int)
    requires
        0 <= i <= p.len(),
        forall|k: int| i <= k < p.len() ==> p[k] != '/',
        i == 0 || p[i - 1] == '/',
    ensures
        basename(p) =~= p.subrange(i, p.len() as int),
    decreases p.len() - i,
{
    if i == p.len() {
        if p.len() > 0 {
            assert(p.last() == '/');
        }
    } else {
        assert(p.last() != '/');
        let t = p.drop_last();
        assert(forall|k: int| i <= k < t.len() ==> t[k] != '/');
        lemma_basename_index(t, i);
        assert(t.subrange(i, t.len() as int).push(p.last()) =~= p.subrange(i, p.len() as int));
    }
}

/// The basename of a path: everything after its last separator.
fn basename_str<'a>(p: &'a str) -> (r: &'a str)
    ensures
        r@ == basename(p@),
{
    let n = p.unicode_len();
    let mut i: usize = n;
    while i > 0 && p.get_char(i - 1) != '/'
        invariant
            n == p@.len(),
            i <= n,
            forall|k: int| i <= k < n ==> p@[k] != '/',
        decreases i,
    {
        i -= 1;
    }
    proof {
        lemma_basename_index(p@, i as int);
    }
    p.substring_char(i, n)
}

impl Gitignore {
    /// Builds the filter for a tree root from the text of its ignore file:
    /// every non-blank, non-comment line that compiles becomes a rule, in
    /// file order; the accumulator of included files starts empty.
    pub fn new(root: &str, contents: &str) -> (g: Gitignore)
        ensures
            g@.root == root@,
            g@.included == Seq::<Seq<char>>::empty(),
            g@.patterns == rules_of(lines_spec(contents@), root@),
    {
        let lines = split_lines(contents);
        let ghost lviews = views_of_strings(lines@);
        let mut patterns: Vec<Pattern> = Vec::new();
        let mut i: usize = 0;
        proof {
            assert(lviews.skip(0) =~= lviews);
        }
        while i < lines.len()
            invariant
                i <= lines.len(),
                lviews == views_of_strings(lines@),
                rules_of(lviews, root@) =~= patterns@.map_values(|p: Pattern| p@) + rules_of(
                    lviews.skip(i as int),
                    root@,
                ),
            decreases lines.len() - i,
        {
            let ghost rest = lviews.skip(i as int);
            proof {
                assert(rest[0] == lines@[i as int]@);
                assert(rest.drop_first() =~= lviews.skip(i + 1));
            }
            let line = &lines[i];
            let keep = {
                let t = trim_str(line.as_str());
                let tn = t.unicode_len();
                let is_comment = {
                    let ln = line.as_str().unicode_len();
                    ln > 0 && line.as_str().get_char(0) == '#'
                };
                tn != 0 && !is_comment
            };
            assert(keep == keeps_line(rest[0]));
            if keep {
                match Pattern::new(line.as_str(), root) {
                    Ok(p) => {
                        proof {
                            assert((patterns@.push(p)).map_values(|q: Pattern| q@) =~= patterns@
                                .map_values(|q: Pattern| q@).push(p@));
                            assert(rules_of(rest, root@) =~= seq![pattern_model(rest[0], root@)]
                                + rules_of(rest.drop_first(), root@));
                        }
                        patterns.push(p);
                    },
                    Err(_) => {
                        assert(rules_of(rest, root@) =~= rules_of(rest.drop_first(), root@));
                    },
                }
            } else {
                assert(rules_of(rest, root@) =~= rules_of(rest.drop_first(), root@));
            }
            i += 1;
        }
        proof {
            assert(lviews.skip(lines@.len() as int) =~= Seq::<Seq<char>>::empty());
            assert(rules_of(Seq::empty(), root@) =~= Seq::<PatternModel>::empty());
        }
        let g = Gitignore { patterns, root: root.to_owned(), included: Vec::new() };
        proof {
            assert(g@.included =~= Seq::<Seq<char>>::empty());
            assert(g@.patterns =~= rules_of(lines_spec(contents@), root@));
        }
        g
    }

    /// Whether any rule of the filter excludes this path.
    pub fn is_path_excluded(&self, path: &str, is_dir: bool) -> (r: bool)
        ensures
            r == filter_verdict(self@.patterns, path@, is_dir),
    {
        let mut i: usize = 0;
        while i < self.patterns.len()
            invariant
                i <= self.patterns@.len(),
                forall|k: int|
                    0 <= k < i ==> !pattern_verdict(
                        #[trigger] self@.patterns[k],
                        path@,
                        is_dir,
                    ),
            decreases self.patterns@.len() - i,
        {
            if self.patterns[i].is_excluded(path, is_dir) {
                assert(pattern_verdict(self@.patterns[i as int], path@, is_dir));
                return true;
            }
            i += 1;
        }
        assert(!filter_verdict(self@.patterns, path@, is_dir)) by {
            if filter_verdict(self@.patterns, path@, is_dir) {
                let k = choose|k: int|
                    0 <= k < self@.patterns.len() && pattern_verdict(
                        self@.patterns[k],
                        path@,
                        is_dir,
                    );
            }
        }
        false
    }

    /// One step of the pruning walk: decides for a directory entry whether
    /// to descend, records a file entry that no rule excludes, and skips the
    /// version-control directory and the ignore file unconditionally.
    pub fn consider_entry(&mut self, path: String, is_dir: bool) -> (descend: bool)
        ensures
            descend == entry_descend(old(self)@.patterns, path@, is_dir),
            final(self)@.patterns == old(self)@.patterns,
            final(self)@.root == old(self)@.root,
            final(self)@.included == if entry_included(old(self)@.patterns, path@, is_dir) {
                old(self)@.included.push(path@)
            } else {
                old(self)@.included
            },
    {
        let base = basename_str(path.as_str());
        let skip = str_eq(base, ".git") || str_eq(base, ".gitignore");
        proof {
            reveal_strlit(".git");
            reveal_strlit(".gitignore");
            assert((".git")@ =~= git_dir_name());
            assert((".gitignore")@ =~= ignore_file_name());
        }
        assert(skip == skip_entry(path@));
        if skip {
            return false;
        }
        if is_dir {
            !self.is_path_excluded(path.as_str(), true)
        } else {
            if !self.is_path_excluded(path.as_str(), false) {
                proof {
                    assert(views_of_strings(self.included@.push(path)) =~= views_of_strings(
                        self.included@,
                    ).push(path@));
                }
                self.included.push(path);
            }
            false
        }
    }

    /// The files recorded by the walk, in the order they were found.
    pub fn get_files(self) -> (r: Vec<String>)
        ensures
            views_of_strings(r@) == self@.included,
    {
        self.included
    }
}

/// Exclusion by one rule is final: whatever the other rules say, the filter
/// excludes the path. In particular a later negation rule cannot override an
/// earlier exclusion.
pub proof fn lemma_any_rule_excludes(
    rules: Seq<PatternModel>,
    i: int,
    path: Seq<char>,
    is_dir: bool,
)
    requires
        0 <= i < rules.len(),
        pattern_verdict(rules[i], path, is_dir),
    ensures
        filter_verdict(rules, path, is_dir),
{
}

/// Appending further rules (for example a negation) to a filter that
/// already excludes a path leaves the path excluded.
pub proof fn lemma_no_negation_override(
    rules: Seq<PatternModel>,
    extra: PatternModel,
    path: Seq<char>,
    is_dir: bool,
)
    requires
        filter_verdict(rules, path, is_dir),
    ensures
        filter_verdict(rules.push(extra), path, is_dir),
{
    let i = choose|i: int| 0 <= i < rules.len() && pattern_verdict(rules[i], path, is_dir);
    assert(rules.push(extra)[i] == rules[i]);
}

/// The filter's verdict is pure: on one rule set, path and entry kind, two
/// verdicts are always equal.
pub proof fn lemma_filter_verdict_pure(
    rules: Seq<PatternModel>,
    path: Seq<char>,
    is_dir: bool,
    r1: bool,
    r2: bool,
)
    requires
        r1 == filter_verdict(rules, path, is_dir),
        r2 == filter_verdict(rules, path, is_dir),
    ensures
        r1 == r2,
{
}

} // verus!
