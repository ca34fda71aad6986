//! Rewriting text by replacing each placeholder token with a cased variant
//! of the project name, in one left-to-right pass.

use vstd::prelude::*;
use crate::casing::{string_to_casing, to_casing, WordCasing};
use aho_corasick::{AhoCorasick, BuildError};

verus! {

#[verifier::external_type_specification]
#[verifier::external_body]
pub struct ExAhoCorasick(AhoCorasick);

#[verifier::external_type_specification]
#[verifier::external_body]
pub struct ExBuildError(BuildError);

/// Whether pattern `p` (never empty) occurs in `t` starting at index `i`.
pub open spec fn matches_at(t: Seq<char>, i: int, p: Seq<char>) -> bool {
    &&& p.len() > 0
    &&& 0 <= i
    &&& i + p.len() <= t.len()
    &&& t.subrange(i, i + p.len()) == p
}

/// The index of the first pattern of `pats` that occurs in `t` at index `i`.
pub open spec fn pattern_at(t: Seq<char>, i: int, pats: Seq<Seq<char>>) -> Option<int>
    decreases pats.len(),
{
    if pats.len() == 0 {
        None
    } else {
        match pattern_at(t, i, pats.drop_last()) {
            Some(k) => Some(k),
            None => if matches_at(t, i, pats.last()) {
                Some(pats.len() - 1)
            } else {
                None
            },
        }
    }
}

pub proof fn lemma_pattern_at(t: Seq<char>, i: int, pats: Seq<Seq<char>>)
    ensures
        pattern_at(t, i, pats) matches Some(k) ==> 0 <= k < pats.len() && matches_at(t, i, pats[k]),
        pattern_at(t, i, pats) is None ==> forall|k: int| 0 <= k < pats.len() ==> !matches_at(t, i, #[trigger] pats[k]),
    decreases pats.len(),
{
    if pats.len() > 0 {
        lemma_pattern_at(t, i, pats.drop_last());
        assert forall|k: int| 0 <= k < pats.len() - 1 implies pats.drop_last()[k] == pats[k] by {}
    }
}

#[via_fn]
proof fn replace_from_decreases(t: Seq<char>, i: int, pats: Seq<Seq<char>>, reps: Seq<Seq<char>>) {
    lemma_pattern_at(t, i, pats);
}

/// Leftmost-first replacement from index `i` on: at each index the first
/// pattern in `pats` that occurs there is replaced by the replacement of the
/// same index and the scan goes on after it; where none occurs the character
/// is kept.
pub open spec fn replace_from(t: Seq<char>, i: int, pats: Seq<Seq<char>>, reps: Seq<Seq<char>>) -> Seq<char>
    decreases t.len() - i via replace_from_decreases
{
    if i < 0 || i >= t.len() {
        seq![]
    } else {
        match pattern_at(t, i, pats) {
            Some(k) => reps[k] + replace_from(t, i + pats[k].len(), pats, reps),
            None => seq![t[i]] + replace_from(t, i + 1, pats, reps),
        }
    }
}

/// Leftmost-first, non-overlapping replacement of every pattern occurrence in `t`.
pub open spec fn replace_all(t: Seq<char>, pats: Seq<Seq<char>>, reps: Seq<Seq<char>>) -> Seq<char> {
    replace_from(t, 0, pats, reps)
}

/// The patterns that a searcher was built from, where it was built with
/// leftmost-first match semantics and unanchored searches.
pub uninterp spec fn leftmost_first_patterns(a: AhoCorasick) -> Option<Seq<Seq<char>>>;

/// Relies on `AhoCorasick::builder`, `AhoCorasickBuilder::match_kind` and
/// `AhoCorasickBuilder::build`: with `MatchKind::LeftmostFirst` and the
/// builder's default unanchored start, a successful build gives a searcher
/// for exactly these patterns, in this order. The build fails only when a
/// state, pattern or pattern-length index overflows its limit (at least
/// 32767 even on 16-bit targets), which a dozen patterns of at most 64
/// characters (256 bytes) each cannot reach.
#[verifier::external_body]
fn build_leftmost_first(patterns: &Vec<String>) -> (r: Result<AhoCorasick, BuildError>)
    ensures
        r matches Ok(a) ==> leftmost_first_patterns(a) == Some(patterns.deep_view()),
        patterns@.len() <= 12 && (forall|k: int| 0 <= k < patterns@.len() ==> (#[trigger] patterns@[k])@.len() <= 64)
            ==> r is Ok,
{
    AhoCorasick::builder().match_kind(aho_corasick::MatchKind::LeftmostFirst).build(patterns)
}

/// Relies on `AhoCorasick::replace_all`: every leftmost-first match, scanning
/// from the left without overlap, is replaced by the replacement of its
/// pattern's index. On UTF-8 text a match of a non-empty UTF-8 pattern starts
/// and ends on character boundaries, so this is the same on characters. It
/// panics only for a searcher without unanchored searches, or when the number
/// of replacements is not the number of patterns; both are excluded.
#[verifier::external_body]
fn replace_leftmost_first(searcher: &AhoCorasick, haystack: &str, replacements: &Vec<String>) -> (r: String)
    requires
        leftmost_first_patterns(*searcher) is Some,
        leftmost_first_patterns(*searcher)->0.len() == replacements@.len(),
        forall|k: int| 0 <= k < leftmost_first_patterns(*searcher)->0.len()
            ==> (#[trigger] leftmost_first_patterns(*searcher)->0[k]).len() > 0,
    ensures
        r@ == replace_all(haystack@, leftmost_first_patterns(*searcher)->0, replacements.deep_view()),
{
    searcher.replace_all(haystack, replacements.as_slice())
}

/// The number of placeholder tokens.
pub const PLACEHOLDER_COUNT: usize = 12;

/// The placeholder tokens, in the order in which they are searched for.
pub open spec fn placeholder_tokens() -> Seq<Seq<char>> {
    seq![
        "@@SCAFFY_PROJECT_NAME@@"@,
        "@@SCAFFY_PROJECT_NAME_TITLECASE@@"@,
        "@@SCAFFY_PROJECT_NAME_UPPERCASE@@"@,
        "@@SCAFFY_PROJECT_NAME_LOWERCASE@@"@,
        "@@SCAFFY_PROJECT_NAME_SNAKECASE@@"@,
        "@@SCAFFY_PROJECT_NAME_UPPERSNAKECASE@@"@,
        "@@SCAFFY_PROJECT_NAME_LOWERSNAKECASE@@"@,
        "@@SCAFFY_PROJECT_NAME_LOWERCAMELCASE@@"@,
        "@@SCAFFY_PROJECT_NAME_UPPERCAMELCASE@@"@,
        "@@SCAFFY_PROJECT_NAME_KEBABCASE@@"@,
        "@@SCAFFY_PROJECT_NAME_LOWERKEBABCASE@@"@,
        "@@SCAFFY_PROJECT_NAME_UPPERKEBABCASE@@"@,
    ]
}

/// The joiner, word casing and first-word casing that give the replacement
/// of the token at index `k`.
pub open spec fn placeholder_rule(k: int) -> (Seq<char>, WordCasing, Option<WordCasing>) {
    if k == 0 {
        (" "@, WordCasing::Preserve, None)
    } else if k == 1 {
        (" "@, WordCasing::Title, None)
    } else if k == 2 {
        (" "@, WordCasing::Upper, None)
    } else if k == 3 {
        (" "@, WordCasing::Lower, None)
    } else if k == 4 {
        ("_"@, WordCasing::Lower, None)
    } else if k == 5 {
        ("_"@, WordCasing::Upper, None)
    } else if k == 6 {
        ("_"@, WordCasing::Lower, None)
    } else if k == 7 {
        (""@, WordCasing::Title, Some(WordCasing::Lower))
    } else if k == 8 {
        (""@, WordCasing::Title, None)
    } else if k == 9 {
        ("-"@, WordCasing::Lower, None)
    } else if k == 10 {
        ("-"@, WordCasing::Lower, None)
    } else {
        ("-"@, WordCasing::Upper, None)
    }
}

/// The replacement of each token for the project name `name`.
pub open spec fn plan_of(name: Seq<char>) -> Seq<Seq<char>> {
    Seq::new(
        PLACEHOLDER_COUNT as nat,
        |k: int| to_casing(name, placeholder_rule(k).0, placeholder_rule(k).1, placeholder_rule(k).2),
    )
}

/// `input` with every placeholder token replaced for the project name `name`.
pub open spec fn substituted(input: Seq<char>, name: Seq<char>) -> Seq<char> {
    replace_all(input, placeholder_tokens(), plan_of(name))
}

/// Whether `t` holds pattern `p` anywhere.
pub open spec fn occurs_in(t: Seq<char>, p: Seq<char>) -> bool {
    exists|i: int| #[trigger] matches_at(t, i, p)
}

proof fn lemma_tokens_nonempty()
    ensures
        forall|k: int| 0 <= k < placeholder_tokens().len() ==> (#[trigger] placeholder_tokens()[k]).len() > 0,
        forall|k: int| 0 <= k < placeholder_tokens().len() ==> (#[trigger] placeholder_tokens()[k]).len() <= 64,
{
    reveal_strlit("@@SCAFFY_PROJECT_NAME@@");
    reveal_strlit("@@SCAFFY_PROJECT_NAME_TITLECASE@@");
    reveal_strlit("@@SCAFFY_PROJECT_NAME_UPPERCASE@@");
    reveal_strlit("@@SCAFFY_PROJECT_NAME_LOWERCASE@@");
    reveal_strlit("@@SCAFFY_PROJECT_NAME_SNAKECASE@@");
    reveal_strlit("@@SCAFFY_PROJECT_NAME_UPPERSNAKECASE@@");
    reveal_strlit("@@SCAFFY_PROJECT_NAME_LOWERSNAKECASE@@");
    reveal_strlit("@@SCAFFY_PROJECT_NAME_LOWERCAMELCASE@@");
    reveal_strlit("@@SCAFFY_PROJECT_NAME_UPPERCAMELCASE@@");
    reveal_strlit("@@SCAFFY_PROJECT_NAME_KEBABCASE@@");
    reveal_strlit("@@SCAFFY_PROJECT_NAME_LOWERKEBABCASE@@");
    reveal_strlit("@@SCAFFY_PROJECT_NAME_UPPERKEBABCASE@@");
}

/// The placeholder tokens as strings, in search order.
pub fn placeholder_token_strings() -> (r: Vec<String>)
    ensures
        r.deep_view() == placeholder_tokens(),
{
    let mut v: Vec<String> = Vec::new();
    v.push(String::from_str("@@SCAFFY_PROJECT_NAME@@"));
    v.push(String::from_str("@@SCAFFY_PROJECT_NAME_TITLECASE@@"));
    v.push(String::from_str("@@SCAFFY_PROJECT_NAME_UPPERCASE@@"));
    v.push(String::from_str("@@SCAFFY_PROJECT_NAME_LOWERCASE@@"));
    v.push(String::from_str("@@SCAFFY_PROJECT_NAME_SNAKECASE@@"));
    v.push(String::from_str("@@SCAFFY_PROJECT_NAME_UPPERSNAKECASE@@"));
    v.push(String::from_str("@@SCAFFY_PROJECT_NAME_LOWERSNAKECASE@@"));
    v.push(String::from_str("@@SCAFFY_PROJECT_NAME_LOWERCAMELCASE@@"));
    v.push(String::from_str("@@SCAFFY_PROJECT_NAME_UPPERCAMELCASE@@"));
    v.push(String::from_str("@@SCAFFY_PROJECT_NAME_KEBABCASE@@"));
    v.push(String::from_str("@@SCAFFY_PROJECT_NAME_LOWERKEBABCASE@@"));
    v.push(String::from_str("@@SCAFFY_PROJECT_NAME_UPPERKEBABCASE@@"));
    assert(v.deep_view() =~= placeholder_tokens());
    v
}

/// The joiner, word casing and first-word casing of the token at index `k`.
pub fn placeholder_rule_at(k: usize) -> (r: (&'static str, WordCasing, Option<WordCasing>))
    requires
        k < PLACEHOLDER_COUNT,
    ensures
        (r.0@, r.1, r.2) == placeholder_rule(k as int),
{
    if k == 0 {
        (" ", WordCasing::Preserve, None)
    } else if k == 1 {
        (" ", WordCasing::Title, None)
    } else if k == 2 {
        (" ", WordCasing::Upper, None)
    } else if k == 3 {
        (" ", WordCasing::Lower, None)
    } else if k == 4 {
        ("_", WordCasing::Lower, None)
    } else if k == 5 {
        ("_", WordCasing::Upper, None)
    } else if k == 6 {
        ("_", WordCasing::Lower, None)
    } else if k == 7 {
        ("", WordCasing::Title, Some(WordCasing::Lower))
    } else if k == 8 {
        ("", WordCasing::Title, None)
    } else if k == 9 {
        ("-", WordCasing::Lower, None)
    } else if k == 10 {
        ("-", WordCasing::Lower, None)
    } else {
        ("-", WordCasing::Upper, None)
    }
}

/// Why the placeholder searcher could not be built.
#[derive(Debug, PartialEq, Eq, Structural)]
pub enum PatternCompilationError {
    /// The pattern set was too large for the searcher.
    Build,
}

/// The replacement of each placeholder token for one project name. It is
/// computed once and then only read.
pub struct SubstitutionPlan {
    replacements: Vec<String>,
}

impl View for SubstitutionPlan {
    type V = Seq<Seq<char>>;

    closed spec fn view(&self) -> Seq<Seq<char>> {
        self.replacements.deep_view()
    }
}

impl SubstitutionPlan {
    /// The replacement of each token for `project_name`, in token order.
    pub fn for_project(project_name: &str) -> (r: SubstitutionPlan)
        ensures
            r@ == plan_of(project_name@),
    {
        let mut replacements: Vec<String> = Vec::new();
        let mut k: usize = 0;
        while k < PLACEHOLDER_COUNT
            invariant
                k <= PLACEHOLDER_COUNT,
                replacements.deep_view() =~= plan_of(project_name@).subrange(0, k as int),
            decreases PLACEHOLDER_COUNT - k,
        {
            let rule = placeholder_rule_at(k);
            let r = string_to_casing(project_name, rule.0, rule.1, rule.2);
            let ghost before = replacements.deep_view();
            replacements.push(r);
            proof {
                assert(replacements.deep_view() =~= before.push(r@));
            }
            k = k + 1;
        }
        SubstitutionPlan { replacements }
    }

    /// The replacement of the token at index `k`.
    pub fn replacement(&self, k: usize) -> (r: &str)
        requires
            k < self@.len(),
        ensures
            r@ == self@[k as int],
    {
        self.replacements[k].as_str()
    }
}

/// The searcher for the placeholder tokens, built once and shared.
pub struct PlaceholderSearcher {
    searcher: AhoCorasick,
}

impl PlaceholderSearcher {
    /// The searcher is one for the placeholder tokens, in order, with
    /// leftmost-first semantics.
    pub closed spec fn wf(&self) -> bool {
        leftmost_first_patterns(self.searcher) == Some(placeholder_tokens())
    }

    /// Builds the searcher for the placeholder tokens. The fixed token set
    /// always builds.
    pub fn new() -> (r: Result<PlaceholderSearcher, PatternCompilationError>)
        ensures
            r is Ok,
            r matches Ok(s) ==> s.wf(),
    {
        let tokens = placeholder_token_strings();
        proof {
            lemma_tokens_nonempty();
            assert(tokens@.len() == tokens.deep_view().len());
            assert(placeholder_tokens().len() == 12);
            assert forall|k: int| 0 <= k < tokens@.len() implies (#[trigger] tokens@[k])@.len() <= 64 by {
                assert(tokens@[k]@ == tokens.deep_view()[k]);
            }
        }
        match build_leftmost_first(&tokens) {
            Ok(searcher) => Ok(PlaceholderSearcher { searcher }),
            Err(_) => Err(PatternCompilationError::Build),
        }
    }

    /// `input` with every placeholder token replaced by its entry in `plan`.
    pub fn substitute_with_plan(&self, plan: &SubstitutionPlan, input: &str) -> (r: String)
        requires
            self.wf(),
            plan@.len() == PLACEHOLDER_COUNT,
        ensures
            r@ == replace_all(input@, placeholder_tokens(), plan@),
    {
        proof {
            lemma_tokens_nonempty();
        }
        replace_leftmost_first(&self.searcher, input, &plan.replacements)
    }
}

/// `input` with every placeholder token replaced by the matching cased form
/// of `project_name`.
pub fn scaffy_string_replacement(searcher: &PlaceholderSearcher, input: &str, project_name: &str) -> (r: String)
    requires
        searcher.wf(),
    ensures
        r@ == substituted(input@, project_name@),
{
    let plan = SubstitutionPlan::for_project(project_name);
    searcher.substitute_with_plan(&plan, input)
}

proof fn lemma_replace_from_unmatched(t: Seq<char>, i: int, pats: Seq<Seq<char>>, reps: Seq<Seq<char>>)
    requires
        0 <= i <= t.len(),
        forall|k: int, j: int| 0 <= k < pats.len() ==> !#[trigger] matches_at(t, j, pats[k]),
    ensures
        replace_from(t, i, pats, reps) == t.subrange(i, t.len() as int),
    decreases t.len() - i,
{
    if i < t.len() {
        lemma_pattern_at(t, i, pats);
        if pattern_at(t, i, pats) is Some {
            let k = pattern_at(t, i, pats)->0;
            assert(matches_at(t, i, pats[k]));
        }
        lemma_replace_from_unmatched(t, i + 1, pats, reps);
        assert(t.subrange(i, t.len() as int) =~= seq![t[i]] + t.subrange(i + 1, t.len() as int));
    } else {
        assert(t.subrange(i, t.len() as int) =~= seq![]);
    }
}

/// Text that holds no placeholder token comes out of substitution
/// unchanged, whatever the project name.
pub proof fn lemma_text_without_tokens_unchanged(input: Seq<char>, name: Seq<char>)
    requires
        forall|k: int| 0 <= k < placeholder_tokens().len() ==> !occurs_in(input, #[trigger] placeholder_tokens()[k]),
    ensures
        substituted(input, name) == input,
{
    let pats = placeholder_tokens();
    assert forall|k: int, j: int| 0 <= k < pats.len() implies !#[trigger] matches_at(input, j, pats[k]) by {
        if matches_at(input, j, pats[k]) {
            assert(occurs_in(input, pats[k]));
        }
    }
    lemma_replace_from_unmatched(input, 0, pats, plan_of(name));
    assert(input.subrange(0, input.len() as int) =~= input);
}

/// Substitution is a function of the text and the project name alone: two
/// runs on equal arguments give equal text, whichever searcher and plan
/// objects they use.
pub proof fn lemma_substitution_deterministic(input1: Seq<char>, name1: Seq<char>, input2: Seq<char>, name2: Seq<char>)
    requires
        input1 == input2,
        name1 == name2,
    ensures
        substituted(input1, name1) == substituted(input2, name2),
        plan_of(name1) == plan_of(name2),
{
}

} // verus!
