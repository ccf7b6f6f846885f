//! Matching a message against a subscription's regular expression, with the
//! `regex` crate.
use vstd::prelude::*;

verus! {

/// `regex::Regex`, a compiled regular expression.
#[verifier::external_type_specification]
#[verifier::external_body]
pub struct ExRegex(regex::Regex);

/// `regex::Error`, why a pattern did not compile.
#[verifier::external_type_specification]
#[verifier::external_body]
pub struct ExRegexError(regex::Error);

/// Whether `regex::Regex::new` accepts `pattern`: its syntax is valid and
/// the compiled form stays under the default size limit.
pub uninterp spec fn pattern_compiles(pattern: Seq<char>) -> bool;

/// The capture groups of the leftmost-first match of `pattern` in
/// `haystack` (group 0 is the whole match; a group that took no part in
/// the match is `None`), or `None` where the pattern does not match.
pub uninterp spec fn capture_groups(pattern: Seq<char>, haystack: Seq<char>) -> Option<
    Seq<Option<Seq<char>>>,
>;

/// `regex::Regex::new`: compiles `pattern`. Its result depends on the
/// pattern alone; the contract names whether it succeeds and claims nothing
/// of the error.
#[verifier::external_body]
fn regex_new(pattern: &str) -> (res: Result<regex::Regex, regex::Error>)
    ensures
        res is Ok <==> pattern_compiles(pattern@),
{
    regex::Regex::new(pattern)
}

pub open spec fn opt_strings_view(v: Seq<Option<String>>) -> Seq<Option<Seq<char>>> {
    v.map_values(|o: Option<String>| match o {
        Some(s) => Some(s@),
        None => None,
    })
}

/// A subscription pattern together with its compiled form.
pub struct Matcher {
    pattern: String,
    regex: regex::Regex,
}

impl Matcher {
    /// The pattern that this matcher was compiled from.
    pub closed spec fn pattern(&self) -> Seq<char> {
        self.pattern@
    }

    /// Compiles `pattern`; `None` where the `regex` crate refuses it.
    pub fn compile(pattern: &str) -> (res: Option<Matcher>)
        ensures
            res is Some <==> pattern_compiles(pattern@),
            res matches Some(m) ==> m.pattern() == pattern@,
    {
        match regex_new(pattern) {
            Ok(regex) => Some(Matcher { pattern: pattern.to_owned(), regex }),
            Err(_) => None,
        }
    }

    /// `regex::Regex::captures`: the capture groups of the match of the
    /// pattern in `text`, each converted to an owned string. The regex held
    /// here is always the compilation of `self.pattern` (the fields are
    /// private and `compile` is the only constructor), so the result is
    /// the named `capture_groups` of that pattern and `text`.
    #[verifier::external_body]
    pub(crate) fn captures(&self, text: &str) -> (res: Option<Vec<Option<String>>>)
        ensures
            res is None <==> capture_groups(self.pattern(), text@) is None,
            res matches Some(gs) ==> capture_groups(self.pattern(), text@) == Some(
                opt_strings_view(gs@),
            ),
    {
        self.regex.captures(text).map(
            |caps| caps.iter().map(|m| m.map(|m| m.as_str().to_string())).collect(),
        )
    }
}

/// The texts of the groups that took part in a match, in order.
pub open spec fn present(gs: Seq<Option<Seq<char>>>) -> Seq<Seq<char>>
    decreases gs.len(),
{
    if gs.len() == 0 {
        Seq::empty()
    } else {
        match gs.last() {
            Some(t) => present(gs.drop_last()).push(t),
            None => present(gs.drop_last()),
        }
    }
}

/// The indices of the groups that took part in a match, in order.
pub open spec fn present_indices(gs: Seq<Option<Seq<char>>>) -> Seq<int>
    decreases gs.len(),
{
    if gs.len() == 0 {
        Seq::empty()
    } else {
        match gs.last() {
            Some(_) => present_indices(gs.drop_last()).push(gs.len() - 1),
            None => present_indices(gs.drop_last()),
        }
    }
}

proof fn lemma_present_indices(gs: Seq<Option<Seq<char>>>)
    ensures
        present_indices(gs).len() == present(gs).len(),
        forall|k: int|
            0 <= k < present_indices(gs).len() ==> 0 <= #[trigger] present_indices(gs)[k] < gs.len()
                && gs[present_indices(gs)[k]] == Some(present(gs)[k]),
        forall|k: int, l: int|
            0 <= k < l < present_indices(gs).len() ==> present_indices(gs)[k]
                < present_indices(gs)[l],
        forall|g: int| 0 <= g < gs.len() && (#[trigger] gs[g]) is Some ==> present_indices(gs).contains(g),
    decreases gs.len(),
{
    if gs.len() > 0 {
        let init = gs.drop_last();
        lemma_present_indices(init);
        let ix = present_indices(gs);
        let ix0 = present_indices(init);
        assert forall|g: int| 0 <= g < gs.len() && (#[trigger] gs[g]) is Some implies ix.contains(g) by {
            if g < gs.len() - 1 {
                assert(init[g] == gs[g]);
                let k = choose|k: int| 0 <= k < ix0.len() && ix0[k] == g;
                assert(ix[k] == g);
            } else {
                assert(ix[ix.len() - 1] == g);
            }
        }
    }
}

/// The parameters of a match are exactly the texts of the groups after the
/// whole match that took part in it, in order, an empty text as much as any
/// other: the groups listed by an increasing sequence of indices, each at
/// least 1, that holds every participating group after the first.
pub proof fn law_params_are_participating_groups(gs: Seq<Option<Seq<char>>>)
    ensures
        exists|ix: Seq<int>|
            #![trigger ix.len()]
            ix.len() == match_params(gs).len() && (forall|k: int|
                0 <= k < ix.len() ==> 1 <= #[trigger] ix[k] < gs.len() && gs[ix[k]] == Some(
                    match_params(gs)[k],
                )) && (forall|k: int, l: int| 0 <= k < l < ix.len() ==> ix[k] < ix[l]) && (forall|
                g: int,
            |
                1 <= g < gs.len() && (#[trigger] gs[g]) is Some ==> ix.contains(g)),
{
    if gs.len() == 0 {
        assert(Seq::<int>::empty().len() == 0);
    } else {
        let rest = gs.drop_first();
        lemma_present_indices(rest);
        let ix0 = present_indices(rest);
        let ix = ix0.map_values(|i: int| i + 1);
        assert forall|g: int| 1 <= g < gs.len() && (#[trigger] gs[g]) is Some implies ix.contains(g) by {
            assert(rest[g - 1] == gs[g]);
            let k = choose|k: int| 0 <= k < ix0.len() && ix0[k] == g - 1;
            assert(ix[k] == g);
        }
        assert forall|k: int| 0 <= k < ix.len() implies 1 <= #[trigger] ix[k] < gs.len() && gs[ix[k]]
            == Some(match_params(gs)[k]) by {
            assert(ix0[k] >= 0);
            assert(rest[ix0[k]] == gs[ix0[k] + 1]);
        }
        assert forall|k: int, l: int| 0 <= k < l < ix.len() implies ix[k] < ix[l] by {
            assert(ix0[k] < ix0[l]);
        }
    }
}

/// The parameters that a match passes on: the groups after the whole match
/// that took part in it.
pub open spec fn match_params(gs: Seq<Option<Seq<char>>>) -> Seq<Seq<char>> {
    if gs.len() == 0 {
        Seq::empty()
    } else {
        present(gs.drop_first())
    }
}

/// The parameters that a match passes on: group 0 skipped, the groups that
/// did not take part left out.
pub fn params_of(groups: Vec<Option<String>>) -> (res: Vec<String>)
    ensures
        res@.map_values(|s: String| s@) == match_params(opt_strings_view(groups@)),
{
    let ghost gv = opt_strings_view(groups@);
    let mut out: Vec<String> = Vec::new();
    let n = groups.len();
    let mut j: usize = 1;
    if n == 0 {
        proof {
            assert(out@.map_values(|s: String| s@) =~= Seq::<Seq<char>>::empty());
        }
        return out;
    }
    while j < n
        invariant
            1 <= j <= n,
            n == groups@.len(),
            gv == opt_strings_view(groups@),
            out@.map_values(|s: String| s@) == present(gv.subrange(1, j as int)),
        decreases n - j,
    {
        let g = groups[j].clone();
        proof {
            assert(gv.subrange(1, j + 1).drop_last() =~= gv.subrange(1, j as int));
            assert(gv.subrange(1, j + 1).last() == gv[j as int]);
        }
        match g {
            Some(s) => {
                out.push(s);
                proof {
                    assert(out@.map_values(|s: String| s@) =~= present(gv.subrange(1, j as int)).push(
                        gv[j as int]->0,
                    ));
                }
            },
            None => {},
        }
        j = j + 1;
    }
    proof {
        assert(gv.subrange(1, n as int) =~= gv.drop_first());
    }
    out
}

impl Matcher {
    /// The parameters that a match of the pattern in `text` passes on, or
    /// `None` where the pattern does not match.
    pub fn matched_params(&self, text: &str) -> (res: Option<Vec<String>>)
        ensures
            res is None <==> capture_groups(self.pattern(), text@) is None,
            res matches Some(ps) ==> ps@.map_values(|s: String| s@) == match_params(
                capture_groups(self.pattern(), text@)->0,
            ),
    {
        match self.captures(text) {
            Some(groups) => Some(params_of(groups)),
            None => None,
        }
    }
}

} // verus!
