//! The rule language: what each leaf and each group means, how a condition
//! tree is evaluated, and the two passes that collect agents from the rules.

use vstd::prelude::*;
use crate::pattern::{
    cache_grows, glob_match_some, glob_matches_some, lemma_cache_grows_refl,
    lemma_cache_grows_trans, lemma_cache_step_grows, lemma_seen_pattern_stable, regex_matches,
    regex_matches_some, PatternCache,
};
use crate::text::{append_new, contains_name, lemma_append_new, push_new_names};
use crate::types::{ClassificationInput, Condition, RequestView, Rule, RuleConditions, RulesConfig};

verus! {

/// Whether one leaf holds of a request, given the semantic tags.
pub open spec fn leaf_holds(c: Condition, req: RequestView, tags: Seq<Seq<char>>) -> bool {
    match c {
        Condition::FilePattern(p) => glob_matches_some(p@, req.files),
        Condition::FileRegex(p) => regex_matches_some(p@, req.files),
        Condition::PromptRegex(p) => regex_matches(p@, req.task) || regex_matches(p@, req.intent)
            || (req.original_prompt matches Some(o) && regex_matches(p@, o)),
        Condition::BranchRegex(p) => (req.branch matches Some(b) && regex_matches(p@, b)),
        Condition::LlmTag(t) => tags.contains(t@),
        Condition::GitLifecycle(t) => req.intent == t@,
    }
}

/// Whether a condition tree holds: a group of any holds when one child does,
/// a group of all when every child does.
pub open spec fn tree_holds(t: RuleConditions, req: RequestView, tags: Seq<Seq<char>>) -> bool
    decreases t,
{
    match t {
        RuleConditions::Single(c) => leaf_holds(c, req, tags),
        RuleConditions::AnyOf { any_of } => exists|i: int|
            0 <= i < any_of.len() && tree_holds(#[trigger] any_of@[i], req, tags),
        RuleConditions::AllOf { all_of } => forall|i: int|
            0 <= i < all_of.len() ==> tree_holds(#[trigger] all_of@[i], req, tags),
    }
}

/// Whether a semantic-tag leaf occurs anywhere in the tree.
pub open spec fn has_tag_leaf(t: RuleConditions) -> bool
    decreases t,
{
    match t {
        RuleConditions::Single(c) => c is LlmTag,
        RuleConditions::AnyOf { any_of } => exists|i: int|
            0 <= i < any_of.len() && has_tag_leaf(#[trigger] any_of@[i]),
        RuleConditions::AllOf { all_of } => exists|i: int|
            0 <= i < all_of.len() && has_tag_leaf(#[trigger] all_of@[i]),
    }
}

/// A request with every field empty: what the tag pass evaluates rules against.
pub open spec fn empty_request() -> RequestView {
    RequestView {
        task: Seq::empty(),
        intent: Seq::empty(),
        original_prompt: None,
        files: Seq::empty(),
        branch: None,
    }
}

/// Whether rule `r` takes part: it holds, and, in the tag pass, it has a tag leaf.
pub open spec fn rule_fires(r: Rule, req: RequestView, tags: Seq<Seq<char>>, tagged_only: bool) -> bool {
    (!tagged_only || has_tag_leaf(r.conditions)) && tree_holds(r.conditions, req, tags)
}

/// The agents of the rules that fire, in rule order and then target order,
/// each kept at its first appearance.
pub open spec fn routed(rules: Seq<Rule>, req: RequestView, tags: Seq<Seq<char>>, tagged_only: bool) -> Seq<Seq<char>>
    decreases rules.len(),
{
    if rules.len() == 0 {
        Seq::empty()
    } else {
        let prev = routed(rules.drop_last(), req, tags, tagged_only);
        if rule_fires(rules.last(), req, tags, tagged_only) {
            append_new(prev, rules.last().route_to_subagents.deep_view())
        } else {
            prev
        }
    }
}

/// Evaluates one leaf; malformed patterns match nothing.
pub fn evaluate_condition(
    condition: &Condition,
    input: &ClassificationInput,
    tags: &[String],
    cache: &mut PatternCache,
) -> (r: bool)
    requires
        old(cache).wf(),
    ensures
        final(cache).wf(),
        cache_grows(old(cache)@, final(cache)@),
        r == leaf_holds(*condition, input@, tags.deep_view()),
{
    proof {
        lemma_cache_grows_refl(cache@);
    }
    match condition {
        Condition::FilePattern(p) => match &input.associated_files {
            Some(files) => glob_match_some(p.as_str(), files),
            None => false,
        },
        Condition::FileRegex(p) => match &input.associated_files {
            Some(files) => {
                proof {
                    lemma_cache_step_grows(cache@, p@);
                }
                cache.regex_match_some(p.as_str(), files)
            },
            None => false,
        },
        Condition::PromptRegex(p) => {
            let ghost s0 = cache@;
            proof {
                lemma_cache_step_grows(s0, p@);
                lemma_seen_pattern_stable(s0, p@);
            }
            if cache.regex_match(p.as_str(), input.task.as_str()) {
                return true;
            }
            if cache.regex_match(p.as_str(), input.intent.as_str()) {
                return true;
            }
            match &input.original_prompt {
                Some(o) => cache.regex_match(p.as_str(), o.as_str()),
                None => false,
            }
        },
        Condition::BranchRegex(p) => match &input.git_context {
            Some(g) => {
                proof {
                    lemma_cache_step_grows(cache@, p@);
                }
                cache.regex_match(p.as_str(), g.branch.as_str())
            },
            None => false,
        },
        Condition::LlmTag(t) => contains_name(tags, t),
        Condition::GitLifecycle(t) => input.intent == *t,
    }
}

/// Evaluates a condition tree, children in order, stopping as soon as the
/// group's outcome is known.
pub fn evaluate_conditions(
    conditions: &RuleConditions,
    input: &ClassificationInput,
    tags: &[String],
    cache: &mut PatternCache,
) -> (r: bool)
    requires
        old(cache).wf(),
    ensures
        final(cache).wf(),
        cache_grows(old(cache)@, final(cache)@),
        r == tree_holds(*conditions, input@, tags.deep_view()),
    decreases conditions,
{
    match conditions {
        RuleConditions::Single(c) => evaluate_condition(c, input, tags, cache),
        RuleConditions::AnyOf { any_of } => {
            proof {
                lemma_cache_grows_refl(cache@);
            }
            let mut i: usize = 0;
            while i < any_of.len()
                invariant
                    i <= any_of.len(),
                    *conditions == (RuleConditions::AnyOf { any_of: *any_of }),
                    cache.wf(),
                    cache_grows(old(cache)@, cache@),
                    forall|j: int| 0 <= j < i ==> !tree_holds(#[trigger] any_of@[j], input@, tags.deep_view()),
                decreases any_of.len() - i,
            {
                let ghost before = cache@;
                proof {
                    assert(decreases_to!(*conditions => (*conditions)->any_of));
                    assert(decreases_to!(*any_of => any_of@));
                    assert(decreases_to!(any_of@ => any_of@[i as int]));
                }
                let hit = evaluate_conditions(&any_of[i], input, tags, cache);
                proof {
                    lemma_cache_grows_trans(old(cache)@, before, cache@);
                }
                if hit {
                    return true;
                }
                i += 1;
            }
            false
        },
        RuleConditions::AllOf { all_of } => {
            proof {
                lemma_cache_grows_refl(cache@);
            }
            let mut i: usize = 0;
            while i < all_of.len()
                invariant
                    i <= all_of.len(),
                    *conditions == (RuleConditions::AllOf { all_of: *all_of }),
                    cache.wf(),
                    cache_grows(old(cache)@, cache@),
                    forall|j: int| 0 <= j < i ==> tree_holds(#[trigger] all_of@[j], input@, tags.deep_view()),
                decreases all_of.len() - i,
            {
                let ghost before = cache@;
                proof {
                    assert(decreases_to!(*conditions => (*conditions)->all_of));
                    assert(decreases_to!(*all_of => all_of@));
                    assert(decreases_to!(all_of@ => all_of@[i as int]));
                }
                let hit = evaluate_conditions(&all_of[i], input, tags, cache);
                proof {
                    lemma_cache_grows_trans(old(cache)@, before, cache@);
                }
                if !hit {
                    return false;
                }
                i += 1;
            }
            true
        },
    }
}

/// Whether a semantic-tag leaf occurs anywhere in the tree.
pub fn rule_contains_llm_tags(conditions: &RuleConditions) -> (r: bool)
    ensures
        r == has_tag_leaf(*conditions),
    decreases conditions,
{
    match conditions {
        RuleConditions::Single(c) => matches!(c, Condition::LlmTag(_)),
        RuleConditions::AnyOf { any_of: children } | RuleConditions::AllOf { all_of: children } => {
            let mut i: usize = 0;
            while i < children.len()
                invariant
                    i <= children.len(),
                    *conditions == (RuleConditions::AnyOf { any_of: *children }) || *conditions == (RuleConditions::AllOf { all_of: *children }),
                    forall|j: int| 0 <= j < i ==> !has_tag_leaf(#[trigger] children@[j]),
                decreases children.len() - i,
            {
                proof {
                    if *conditions == (RuleConditions::AnyOf { any_of: *children }) {
                        assert(decreases_to!(*conditions => (*conditions)->any_of));
                    } else {
                        assert(decreases_to!(*conditions => (*conditions)->all_of));
                    }
                    assert(decreases_to!(*children => children@));
                    assert(decreases_to!(children@ => children@[i as int]));
                }
                if rule_contains_llm_tags(&children[i]) {
                    return true;
                }
                i += 1;
            }
            false
        },
    }
}

/// The agents of the firing rules, each once, in first-seen order.
fn route(
    input: &ClassificationInput,
    tags: &[String],
    rules_config: &RulesConfig,
    tagged_only: bool,
    cache: &mut PatternCache,
) -> (r: Vec<String>)
    requires
        old(cache).wf(),
    ensures
        final(cache).wf(),
        cache_grows(old(cache)@, final(cache)@),
        r.deep_view() == routed(rules_config.rules@, input@, tags.deep_view(), tagged_only),
{
    let rules = &rules_config.rules;
    let mut agents: Vec<String> = Vec::new();
    proof {
        lemma_cache_grows_refl(cache@);
        assert(agents.deep_view() =~= routed(rules@.subrange(0, 0), input@, tags.deep_view(), tagged_only));
    }
    let mut i: usize = 0;
    while i < rules.len()
        invariant
            i <= rules.len(),
            cache.wf(),
            cache_grows(old(cache)@, cache@),
            agents.deep_view() == routed(rules@.subrange(0, i as int), input@, tags.deep_view(), tagged_only),
        decreases rules.len() - i,
    {
        let rule = &rules[i];
        let ghost before = cache@;
        let fires = if tagged_only && !rule_contains_llm_tags(&rule.conditions) {
            proof {
                lemma_cache_grows_refl(cache@);
            }
            false
        } else {
            evaluate_conditions(&rule.conditions, input, tags, cache)
        };
        proof {
            lemma_cache_grows_trans(old(cache)@, before, cache@);
        }
        if fires {
            push_new_names(&mut agents, &rule.route_to_subagents);
        }
        assert(rules@.subrange(0, i + 1).drop_last() =~= rules@.subrange(0, i as int));
        i += 1;
    }
    assert(rules@.subrange(0, i as int) =~= rules@);
    agents
}

/// The file, branch and prompt pass: every rule evaluated without tags,
/// through the given cache.
pub fn apply_rules_cached(input: &ClassificationInput, rules_config: &RulesConfig, cache: &mut PatternCache) -> (r: Vec<String>)
    requires
        old(cache).wf(),
    ensures
        final(cache).wf(),
        cache_grows(old(cache)@, final(cache)@),
        r.deep_view() == routed(rules_config.rules@, input@, Seq::empty(), false),
{
    let no_tags: Vec<String> = Vec::new();
    let tags = no_tags.as_slice();
    assert(tags.deep_view() =~= Seq::<Seq<char>>::empty());
    route(input, tags, rules_config, false, cache)
}

/// The file, branch and prompt pass: every rule evaluated without tags.
pub fn apply_rules(input: &ClassificationInput, rules_config: &RulesConfig) -> (r: Vec<String>)
    ensures
        r.deep_view() == routed(rules_config.rules@, input@, Seq::empty(), false),
{
    let mut cache = PatternCache::new();
    apply_rules_cached(input, rules_config, &mut cache)
}

/// A request with every field empty.
pub fn blank_input() -> (r: ClassificationInput)
    ensures
        r@ == empty_request(),
{
    ClassificationInput {
        task: String::new(),
        intent: String::new(),
        original_prompt: None,
        associated_files: None,
        git_context: None,
        agent_config_path: None,
        rules_config_path: None,
        llm_tags_path: None,
    }
}

/// The tag pass, through the given cache: only rules with a tag leaf, each
/// evaluated against an empty request and the tags.
pub fn apply_llm_tag_rules_cached(llm_tags: &[String], rules_config: &RulesConfig, cache: &mut PatternCache) -> (r: Vec<String>)
    requires
        old(cache).wf(),
    ensures
        final(cache).wf(),
        cache_grows(old(cache)@, final(cache)@),
        r.deep_view() == routed(rules_config.rules@, empty_request(), llm_tags.deep_view(), true),
{
    let blank = blank_input();
    route(&blank, llm_tags, rules_config, true, cache)
}

/// The tag pass: only rules with a tag leaf, each evaluated against an empty
/// request and the tags.
pub fn apply_llm_tag_rules(llm_tags: &[String], rules_config: &RulesConfig) -> (r: Vec<String>)
    ensures
        r.deep_view() == routed(rules_config.rules@, empty_request(), llm_tags.deep_view(), true),
{
    let mut cache = PatternCache::new();
    apply_llm_tag_rules_cached(llm_tags, rules_config, &mut cache)
}

/// Both passes name each agent at most once; an agent is named exactly when a
/// rule that fires routes to it; and the agents found by the first rules stay
/// first, in the same order, whatever later rules add.
pub proof fn lemma_routed_distinct_ordered(rules: Seq<Rule>, req: RequestView, tags: Seq<Seq<char>>, tagged_only: bool)
    ensures
        routed(rules, req, tags, tagged_only).no_duplicates(),
        forall|x: Seq<char>| #[trigger] routed(rules, req, tags, tagged_only).contains(x) <==> exists|k: int|
            0 <= k < rules.len() && rule_fires(rules[k], req, tags, tagged_only)
                && #[trigger] rules[k].route_to_subagents.deep_view().contains(x),
        forall|n: int| 0 <= n <= rules.len() ==> {
            let head = #[trigger] routed(rules.subrange(0, n), req, tags, tagged_only);
            &&& head.len() <= routed(rules, req, tags, tagged_only).len()
            &&& routed(rules, req, tags, tagged_only).subrange(0, head.len() as int) == head
        },
    decreases rules.len(),
{
    let out = routed(rules, req, tags, tagged_only);
    if rules.len() == 0 {
        assert forall|n: int| 0 <= n <= rules.len() implies {
            let head = #[trigger] routed(rules.subrange(0, n), req, tags, tagged_only);
            &&& head.len() <= out.len()
            &&& out.subrange(0, head.len() as int) == head
        } by {
            assert(rules.subrange(0, n) =~= rules);
            assert(out.subrange(0, 0) =~= out);
        }
    } else {
        let init = rules.drop_last();
        let prev = routed(init, req, tags, tagged_only);
        lemma_routed_distinct_ordered(init, req, tags, tagged_only);
        let last = rules.last();
        if rule_fires(last, req, tags, tagged_only) {
            lemma_append_new(prev, last.route_to_subagents.deep_view());
        } else {
            assert(out.subrange(0, prev.len() as int) =~= prev);
        }
        assert forall|x: Seq<char>| #[trigger] out.contains(x) <==> exists|k: int|
            0 <= k < rules.len() && rule_fires(rules[k], req, tags, tagged_only)
                && #[trigger] rules[k].route_to_subagents.deep_view().contains(x) by {
            if prev.contains(x) {
                let k = choose|k: int| 0 <= k < init.len() && rule_fires(init[k], req, tags, tagged_only)
                    && #[trigger] init[k].route_to_subagents.deep_view().contains(x);
                assert(rules[k] == init[k]);
            }
            if exists|k: int| 0 <= k < rules.len() && rule_fires(rules[k], req, tags, tagged_only)
                && #[trigger] rules[k].route_to_subagents.deep_view().contains(x) {
                let k = choose|k: int| 0 <= k < rules.len() && rule_fires(rules[k], req, tags, tagged_only)
                    && #[trigger] rules[k].route_to_subagents.deep_view().contains(x);
                if k < init.len() {
                    assert(init[k] == rules[k]);
                } else {
                    assert(rules[k] == last);
                }
            }
        }
        assert forall|n: int| 0 <= n <= rules.len() implies {
            let head = #[trigger] routed(rules.subrange(0, n), req, tags, tagged_only);
            &&& head.len() <= out.len()
            &&& out.subrange(0, head.len() as int) == head
        } by {
            if n == rules.len() {
                assert(rules.subrange(0, n) =~= rules);
                assert(out.subrange(0, out.len() as int) =~= out);
            } else {
                assert(rules.subrange(0, n) =~= init.subrange(0, n));
                let head = routed(init.subrange(0, n), req, tags, tagged_only);
                assert(out.subrange(0, head.len() as int) =~= out.subrange(0, prev.len() as int).subrange(0, head.len() as int));
            }
        }
    }
}

/// The file leaves see only the associated files: with none declared, no
/// file glob or file expression matches, whatever the git context holds.
pub proof fn lemma_file_leaves_need_files(input: ClassificationInput, pattern: String, tags: Seq<Seq<char>>)
    requires
        input.associated_files matches Some(f) ==> f.len() == 0,
    ensures
        !leaf_holds(Condition::FilePattern(pattern), input@, tags),
        !leaf_holds(Condition::FileRegex(pattern), input@, tags),
{
    assert(input@.files.len() == 0);
}

} // verus!
