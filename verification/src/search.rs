//! A search request: the text to look for, how many results are wanted and
//! the ranking rules that order them.

use crate::ranking_rules::RankingRule;
use vstd::prelude::*;

verus! {

/// The number of results that a request asks for unless it says otherwise.
pub const DEFAULT_LIMIT: usize = 10;

/// A search request.
pub struct Search<'a> {
    input: &'a str,
    limit: usize,
    ranking_rules: Vec<RankingRule>,
}

/// The mathematical content of a [`Search`].
pub struct SearchView {
    /// The text to look for.
    pub input: Seq<char>,
    /// The greatest number of results wanted.
    pub limit: nat,
    /// The ranking rules, the most important first.
    pub ranking_rules: Seq<RankingRule>,
}

/// Whether a stack of ranking rules can be run: it is not empty, and it
/// does not start with `Exact`, which works on the bucket of the rule
/// before it.
pub open spec fn runnable(ranking_rules: Seq<RankingRule>) -> bool {
    ranking_rules.len() > 0 && ranking_rules[0] != RankingRule::Exact
}

/// The ranking rules of a request that names none: `Word`, `Typo`, `Exact`.
pub open spec fn default_ranking_rules() -> Seq<RankingRule> {
    seq![RankingRule::Word, RankingRule::Typo, RankingRule::Exact]
}

impl<'a> View for Search<'a> {
    type V = SearchView;

    closed spec fn view(&self) -> SearchView {
        SearchView {
            input: self.input@,
            limit: self.limit as nat,
            ranking_rules: self.ranking_rules@,
        }
    }
}

impl<'a> Search<'a> {
    /// Every request can be run: see [`runnable`].
    #[verifier::type_invariant]
    pub closed spec fn well_formed(self) -> bool {
        runnable(self.ranking_rules@)
    }

    /// Creates a request for `input` with the default limit and the
    /// default ranking rules.
    pub fn new(input: &'a str) -> (r: Self)
        ensures
            r@ == (SearchView {
                input: input@,
                limit: DEFAULT_LIMIT as nat,
                ranking_rules: default_ranking_rules(),
            }),
    {
        let mut ranking_rules: Vec<RankingRule> = Vec::new();
        ranking_rules.push(RankingRule::Word);
        ranking_rules.push(RankingRule::Typo);
        ranking_rules.push(RankingRule::Exact);
        assert(ranking_rules@ == default_ranking_rules());
        Search { input, limit: DEFAULT_LIMIT, ranking_rules }
    }

    /// Sets the number of results wanted.
    pub fn with_limit(&mut self, limit: usize) -> (r: &mut Self)
        ensures
            r@ == (SearchView { limit: limit as nat, ..old(self)@ }),
            *final(self) == *final(r),
    {
        proof {
            use_type_invariant(&*self);
        }
        self.limit = limit;
        self
    }

    /// Sets the ranking rules, if they can be run, and tells whether it
    /// did; rules that cannot be run leave the request as it was.
    pub fn with_ranking_rules(&mut self, ranking_rules: Vec<RankingRule>) -> (accepted: bool)
        ensures
            accepted == runnable(ranking_rules@),
            accepted ==> final(self)@ == (SearchView {
                ranking_rules: ranking_rules@,
                ..old(self)@
            }),
            !accepted ==> final(self)@ == old(self)@,
    {
        if ranking_rules.len() > 0 && ranking_rules[0] != RankingRule::Exact {
            self.ranking_rules = ranking_rules;
            true
        } else {
            false
        }
    }

    /// The text to look for.
    pub fn input(&self) -> (r: &'a str)
        ensures
            r@ == self@.input,
    {
        self.input
    }

    /// The greatest number of results wanted.
    pub fn limit(&self) -> (r: usize)
        ensures
            r == self@.limit,
    {
        self.limit
    }

    /// The ranking rules, the most important first.
    pub fn ranking_rules(&self) -> (r: &Vec<RankingRule>)
        ensures
            r@ == self@.ranking_rules,
            runnable(r@),
    {
        proof {
            use_type_invariant(self);
        }
        &self.ranking_rules
    }
}

} // verus!
