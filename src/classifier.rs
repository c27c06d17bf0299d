//! Match provenance, the instruction builder, and the staged classification
//! strategy (rules first, semantic tags only when the rules are not enough).

use vstd::prelude::*;
use crate::pattern::{
    cache_grows, glob_match, glob_matches, lemma_cache_grows_refl, lemma_cache_grows_trans,
    lemma_cache_step_grows, regex_matches, PatternCache,
};
use crate::rules::{
    apply_llm_tag_rules_cached, apply_rules_cached, empty_request, leaf_holds, routed, tree_holds,
};
use crate::text::{append_new, contains_text, lower_of, lowercase, push_new_names, text_contains};
use crate::types::{
    input_error, string_opt_view, AgentDefinition, AgentInfo, AgentRecommendation,
    ClassificationInput, ClassificationResult, Condition, Instruction, InstructionContext,
    InstructionsResponse, LlmTagConfig, RequestView, Rule, RuleConditions, RulesConfig, Trigger, UserConfig,
};

verus! {

/// The leaf that a tree reports as the reason it matched: in a group of any,
/// that of the first child that matches; in a group of all, when every child
/// matches, that of the first child.
pub open spec fn tree_match(t: RuleConditions, req: RequestView, tags: Seq<Seq<char>>) -> Option<Condition>
    decreases t,
{
    match t {
        RuleConditions::Single(c) => if leaf_holds(c, req, tags) {
            Some(c)
        } else {
            None
        },
        RuleConditions::AnyOf { any_of } => first_match(any_of@, req, tags),
        RuleConditions::AllOf { all_of } => if all_of.len() > 0 && forall|i: int|
            0 <= i < all_of.len() ==> tree_match(#[trigger] all_of@[i], req, tags) is Some {
            tree_match(all_of@[0], req, tags)
        } else {
            None
        },
    }
}

/// The reported leaf of the first tree in `cs` that matches.
pub open spec fn first_match(cs: Seq<RuleConditions>, req: RequestView, tags: Seq<Seq<char>>) -> Option<Condition>
    decreases cs,
{
    if cs.len() == 0 {
        None
    } else {
        match tree_match(cs[0], req, tags) {
            Some(c) => Some(c),
            None => first_match(cs.subrange(1, cs.len() as int), req, tags),
        }
    }
}

impl Condition {
    /// A copy of the leaf.
    pub fn copied(&self) -> (r: Condition)
        ensures
            r == *self,
    {
        match self {
            Condition::FilePattern(p) => Condition::FilePattern(p.clone()),
            Condition::FileRegex(p) => Condition::FileRegex(p.clone()),
            Condition::PromptRegex(p) => Condition::PromptRegex(p.clone()),
            Condition::BranchRegex(p) => Condition::BranchRegex(p.clone()),
            Condition::LlmTag(p) => Condition::LlmTag(p.clone()),
            Condition::GitLifecycle(p) => Condition::GitLifecycle(p.clone()),
        }
    }
}

/// Evaluates a tree and reports which leaf made it match.
pub fn evaluate_rule_with_details(
    conditions: &RuleConditions,
    input: &ClassificationInput,
    tags: &[String],
    cache: &mut PatternCache,
) -> (r: Option<Condition>)
    requires
        old(cache).wf(),
    ensures
        final(cache).wf(),
        cache_grows(old(cache)@, final(cache)@),
        r == tree_match(*conditions, input@, tags.deep_view()),
    decreases conditions,
{
    match conditions {
        RuleConditions::Single(c) => {
            if crate::rules::evaluate_condition(c, input, tags, cache) {
                Some(c.copied())
            } else {
                None
            }
        },
        RuleConditions::AnyOf { any_of } => {
            proof {
                lemma_cache_grows_refl(cache@);
                assert(any_of@.subrange(0, any_of.len() as int) =~= any_of@);
            }
            let mut i: usize = 0;
            while i < any_of.len()
                invariant
                    i <= any_of.len(),
                    *conditions == (RuleConditions::AnyOf { any_of: *any_of }),
                    cache.wf(),
                    cache_grows(old(cache)@, cache@),
                    first_match(any_of@, input@, tags.deep_view()) == first_match(any_of@.subrange(i as int, any_of.len() as int), input@, tags.deep_view()),
                decreases any_of.len() - i,
            {
                let ghost before = cache@;
                proof {
                    assert(decreases_to!(*conditions => (*conditions)->any_of));
                    assert(decreases_to!(*any_of => any_of@));
                    assert(decreases_to!(any_of@ => any_of@[i as int]));
                }
                let found = evaluate_rule_with_details(&any_of[i], input, tags, cache);
                proof {
                    lemma_cache_grows_trans(old(cache)@, before, cache@);
                    let rest = any_of@.subrange(i as int, any_of.len() as int);
                    assert(rest[0] == any_of@[i as int]);
                    assert(rest.subrange(1, rest.len() as int) =~= any_of@.subrange(i + 1, any_of.len() as int));
                }
                if found.is_some() {
                    return found;
                }
                i += 1;
            }
            assert(any_of@.subrange(i as int, any_of.len() as int) =~= Seq::<RuleConditions>::empty());
            None
        },
        RuleConditions::AllOf { all_of } => {
            proof {
                lemma_cache_grows_refl(cache@);
            }
            let mut first: Option<Condition> = None;
            let mut i: usize = 0;
            while i < all_of.len()
                invariant
                    i <= all_of.len(),
                    *conditions == (RuleConditions::AllOf { all_of: *all_of }),
                    cache.wf(),
                    cache_grows(old(cache)@, cache@),
                    forall|j: int| 0 <= j < i ==> tree_match(#[trigger] all_of@[j], input@, tags.deep_view()) is Some,
                    i > 0 ==> first == tree_match(all_of@[0], input@, tags.deep_view()),
                    i == 0 ==> first is None,
                decreases all_of.len() - i,
            {
                let ghost before = cache@;
                proof {
                    assert(decreases_to!(*conditions => (*conditions)->all_of));
                    assert(decreases_to!(*all_of => all_of@));
                    assert(decreases_to!(all_of@ => all_of@[i as int]));
                }
                let found = evaluate_rule_with_details(&all_of[i], input, tags, cache);
                proof {
                    lemma_cache_grows_trans(old(cache)@, before, cache@);
                }
                match found {
                    Some(c) => {
                        if i == 0 {
                            first = Some(c);
                        }
                    },
                    None => {
                        return None;
                    },
                }
                i += 1;
            }
            first
        },
    }
}

/// Every group in the tree has at least one child.
pub open spec fn tree_wf(t: RuleConditions) -> bool
    decreases t,
{
    match t {
        RuleConditions::Single(_) => true,
        RuleConditions::AnyOf { any_of } => any_of.len() > 0 && forall|i: int|
            0 <= i < any_of.len() ==> tree_wf(#[trigger] any_of@[i]),
        RuleConditions::AllOf { all_of } => all_of.len() > 0 && forall|i: int|
            0 <= i < all_of.len() ==> tree_wf(#[trigger] all_of@[i]),
    }
}

/// The first match among `cs` exists exactly when some tree in `cs` reports
/// one, and it is that of the first such tree.
pub proof fn lemma_first_match(cs: Seq<RuleConditions>, req: RequestView, tags: Seq<Seq<char>>)
    ensures
        first_match(cs, req, tags) is Some <==> exists|i: int| 0 <= i < cs.len() && tree_match(#[trigger] cs[i], req, tags) is Some,
        forall|i: int| 0 <= i < cs.len() && tree_match(#[trigger] cs[i], req, tags) is Some
            && (forall|j: int| 0 <= j < i ==> tree_match(#[trigger] cs[j], req, tags) is None)
            ==> first_match(cs, req, tags) == tree_match(cs[i], req, tags),
    decreases cs.len(),
{
    if cs.len() > 0 {
        let rest = cs.subrange(1, cs.len() as int);
        lemma_first_match(rest, req, tags);
        if tree_match(cs[0], req, tags) is None {
            assert forall|i: int| 0 <= i < cs.len() && tree_match(#[trigger] cs[i], req, tags) is Some implies
                rest.len() > 0 && tree_match(rest[i - 1], req, tags) is Some by {
                assert(i > 0);
                assert(rest[i - 1] == cs[i]);
            }
            if first_match(cs, req, tags) is Some {
                let k = choose|k: int| 0 <= k < rest.len() && tree_match(#[trigger] rest[k], req, tags) is Some;
                assert(cs[k + 1] == rest[k]);
            }
            assert forall|i: int| 0 <= i < cs.len() && tree_match(#[trigger] cs[i], req, tags) is Some
                && (forall|j: int| 0 <= j < i ==> tree_match(#[trigger] cs[j], req, tags) is None)
                implies first_match(cs, req, tags) == tree_match(cs[i], req, tags) by {
                assert(rest[i - 1] == cs[i]);
                assert forall|j: int| 0 <= j < i - 1 implies tree_match(#[trigger] rest[j], req, tags) is None by {
                    assert(rest[j] == cs[j + 1]);
                }
            }
        }
    }
}

/// Group semantics are the boolean ones: a group of any holds exactly when
/// one child holds, a group of all exactly when every child holds.
pub proof fn lemma_group_semantics(children: Vec<RuleConditions>, req: RequestView, tags: Seq<Seq<char>>)
    ensures
        tree_holds(RuleConditions::AnyOf { any_of: children }, req, tags) <==> exists|i: int|
            0 <= i < children.len() && tree_holds(#[trigger] children@[i], req, tags),
        tree_holds(RuleConditions::AllOf { all_of: children }, req, tags) <==> forall|i: int|
            0 <= i < children.len() ==> tree_holds(#[trigger] children@[i], req, tags),
        tree_match(RuleConditions::AnyOf { any_of: children }, req, tags) is Some <==> exists|i: int|
            0 <= i < children.len() && tree_match(#[trigger] children@[i], req, tags) is Some,
        children.len() > 0 ==> (tree_match(RuleConditions::AllOf { all_of: children }, req, tags) is Some
            <==> forall|i: int| 0 <= i < children.len() ==> tree_match(#[trigger] children@[i], req, tags) is Some),
{
    lemma_first_match(children@, req, tags);
}

/// On trees whose groups are non-empty, a tree reports a matching leaf
/// exactly when it holds.
pub proof fn lemma_match_iff_holds(t: RuleConditions, req: RequestView, tags: Seq<Seq<char>>)
    requires
        tree_wf(t),
    ensures
        tree_match(t, req, tags) is Some <==> tree_holds(t, req, tags),
    decreases t,
{
    match t {
        RuleConditions::Single(_) => {},
        RuleConditions::AnyOf { any_of } => {
            assert forall|i: int| 0 <= i < any_of.len() implies (tree_match(#[trigger] any_of@[i], req, tags) is Some
                <==> tree_holds(any_of@[i], req, tags)) by {
                assert(decreases_to!(t => t->any_of));
                assert(decreases_to!(any_of => any_of@));
                assert(decreases_to!(any_of@ => any_of@[i]));
                lemma_match_iff_holds(any_of@[i], req, tags);
            }
            lemma_first_match(any_of@, req, tags);
        },
        RuleConditions::AllOf { all_of } => {
            assert forall|i: int| 0 <= i < all_of.len() implies (tree_match(#[trigger] all_of@[i], req, tags) is Some
                <==> tree_holds(all_of@[i], req, tags)) by {
                assert(decreases_to!(t => t->all_of));
                assert(decreases_to!(all_of => all_of@));
                assert(decreases_to!(all_of@ => all_of@[i]));
                lemma_match_iff_holds(all_of@[i], req, tags);
            }
        },
    }
}

/// Whether one leaf holds of a single file on its own: only file globs and
/// file expressions can.
pub open spec fn leaf_holds_for_file(c: Condition, file: Seq<char>) -> bool {
    match c {
        Condition::FilePattern(p) => glob_matches(p@, file),
        Condition::FileRegex(p) => regex_matches(p@, file),
        _ => false,
    }
}

/// Whether a tree holds of a single file on its own.
pub open spec fn tree_holds_for_file(t: RuleConditions, file: Seq<char>) -> bool
    decreases t,
{
    match t {
        RuleConditions::Single(c) => leaf_holds_for_file(c, file),
        RuleConditions::AnyOf { any_of } => exists|i: int|
            0 <= i < any_of.len() && tree_holds_for_file(#[trigger] any_of@[i], file),
        RuleConditions::AllOf { all_of } => forall|i: int|
            0 <= i < all_of.len() ==> tree_holds_for_file(#[trigger] all_of@[i], file),
    }
}

/// The files that satisfy the tree one by one, in order.
pub open spec fn files_matching(t: RuleConditions, files: Seq<Seq<char>>) -> Seq<Seq<char>>
    decreases files.len(),
{
    if files.len() == 0 {
        Seq::empty()
    } else {
        let prev = files_matching(t, files.drop_last());
        if tree_holds_for_file(t, files.last()) {
            prev.push(files.last())
        } else {
            prev
        }
    }
}

/// The files an instruction carries: those that satisfy the rule one by one,
/// or all of them when none does.
pub open spec fn context_files(t: RuleConditions, files: Seq<Seq<char>>) -> Seq<Seq<char>> {
    let m = files_matching(t, files);
    if m.len() == 0 {
        files
    } else {
        m
    }
}

/// Whether one leaf holds of a single file.
pub fn file_matches_condition(condition: &Condition, file: &String, cache: &mut PatternCache) -> (r: bool)
    requires
        old(cache).wf(),
    ensures
        final(cache).wf(),
        cache_grows(old(cache)@, final(cache)@),
        r == leaf_holds_for_file(*condition, file@),
{
    proof {
        lemma_cache_grows_refl(cache@);
    }
    match condition {
        Condition::FilePattern(p) => glob_match(p.as_str(), file.as_str()),
        Condition::FileRegex(p) => {
            proof {
                lemma_cache_step_grows(cache@, p@);
            }
            cache.regex_match(p.as_str(), file.as_str())
        },
        _ => false,
    }
}

/// Whether a tree holds of a single file.
pub fn file_matches_conditions(conditions: &RuleConditions, file: &String, cache: &mut PatternCache) -> (r: bool)
    requires
        old(cache).wf(),
    ensures
        final(cache).wf(),
        cache_grows(old(cache)@, final(cache)@),
        r == tree_holds_for_file(*conditions, file@),
    decreases conditions,
{
    match conditions {
        RuleConditions::Single(c) => file_matches_condition(c, file, cache),
        RuleConditions::AnyOf { any_of } => {
            proof {
                lemma_cache_grows_refl(cache@);
            }
            let mut i: usize = 0;
            while i < any_of.len()
                invariant
                    i <= any_of.len(),
                    *conditions == (RuleConditions::AnyOf { any_of: *any_of }),
                    cache.wf(),
                    cache_grows(old(cache)@, cache@),
                    forall|j: int| 0 <= j < i ==> !tree_holds_for_file(#[trigger] any_of@[j], file@),
                decreases any_of.len() - i,
            {
                let ghost before = cache@;
                proof {
                    assert(decreases_to!(*conditions => (*conditions)->any_of));
                    assert(decreases_to!(*any_of => any_of@));
                    assert(decreases_to!(any_of@ => any_of@[i as int]));
                }
                let hit = file_matches_conditions(&any_of[i], file, cache);
                proof {
                    lemma_cache_grows_trans(old(cache)@, before, cache@);
                }
                if hit {
                    return true;
                }
                i += 1;
            }
            false
        },
        RuleConditions::AllOf { all_of } => {
            proof {
                lemma_cache_grows_refl(cache@);
            }
            let mut i: usize = 0;
            while i < all_of.len()
                invariant
                    i <= all_of.len(),
                    *conditions == (RuleConditions::AllOf { all_of: *all_of }),
                    cache.wf(),
                    cache_grows(old(cache)@, cache@),
                    forall|j: int| 0 <= j < i ==> tree_holds_for_file(#[trigger] all_of@[j], file@),
                decreases all_of.len() - i,
            {
                let ghost before = cache@;
                proof {
                    assert(decreases_to!(*conditions => (*conditions)->all_of));
                    assert(decreases_to!(*all_of => all_of@));
                    assert(decreases_to!(all_of@ => all_of@[i as int]));
                }
                let hit = file_matches_conditions(&all_of[i], file, cache);
                proof {
                    lemma_cache_grows_trans(old(cache)@, before, cache@);
                }
                if !hit {
                    return false;
                }
                i += 1;
            }
            true
        },
    }
}

/// The files that satisfy the tree one by one, or all files when none does.
pub fn find_matched_files(conditions: &RuleConditions, files: &Vec<String>, cache: &mut PatternCache) -> (r: Vec<String>)
    requires
        old(cache).wf(),
    ensures
        final(cache).wf(),
        cache_grows(old(cache)@, final(cache)@),
        r.deep_view() == context_files(*conditions, files.deep_view()),
{
    proof {
        lemma_cache_grows_refl(cache@);
    }
    let mut matched: Vec<String> = Vec::new();
    let mut i: usize = 0;
    while i < files.len()
        invariant
            i <= files.len(),
            cache.wf(),
            cache_grows(old(cache)@, cache@),
            matched.deep_view() == files_matching(*conditions, files.deep_view().subrange(0, i as int)),
        decreases files.len() - i,
    {
        let ghost before = cache@;
        let ghost prev = matched.deep_view();
        let hit = file_matches_conditions(conditions, &files[i], cache);
        proof {
            lemma_cache_grows_trans(old(cache)@, before, cache@);
            let head = files.deep_view().subrange(0, i + 1);
            assert(head.drop_last() =~= files.deep_view().subrange(0, i as int));
            assert(head.last() == files.deep_view()[i as int]);
        }
        if hit {
            matched.push(files[i].clone());
            assert(matched.deep_view() =~= prev.push(files.deep_view()[i as int]));
        }
        i += 1;
    }
    assert(files.deep_view().subrange(0, i as int) =~= files.deep_view());
    if matched.len() == 0 {
        let all = files.clone();
        proof {
            vstd::std_specs::vec::vec_clone_deep_view_proof(*files, all);
        }
        all
    } else {
        matched
    }
}

/// The name under which a leaf kind is reported.
pub open spec fn kind_name(c: Condition) -> Seq<char> {
    match c {
        Condition::FilePattern(_) => "file_pattern"@,
        Condition::FileRegex(_) => "file_regex"@,
        Condition::PromptRegex(_) => "prompt_regex"@,
        Condition::BranchRegex(_) => "branch_regex"@,
        Condition::LlmTag(_) => "llm_tag"@,
        Condition::GitLifecycle(_) => "git_lifecycle"@,
    }
}

/// The pattern, tag or event a leaf carries.
pub open spec fn leaf_text(c: Condition) -> Seq<char> {
    match c {
        Condition::FilePattern(p) => p@,
        Condition::FileRegex(p) => p@,
        Condition::PromptRegex(p) => p@,
        Condition::BranchRegex(p) => p@,
        Condition::LlmTag(p) => p@,
        Condition::GitLifecycle(p) => p@,
    }
}

/// Confidence of a match: tag matches carry the tagging model's uncertainty.
pub open spec fn confidence_for(c: Condition) -> u8 {
    if c is LlmTag {
        85
    } else {
        100
    }
}

/// The trigger reported for a leaf: its kind and its literal.
pub fn trigger_for(c: &Condition) -> (r: Trigger)
    ensures
        r.name@ == kind_name(*c),
        r.description@ == leaf_text(*c),
{
    match c {
        Condition::FilePattern(p) => Trigger { name: String::from_str("file_pattern"), description: p.clone() },
        Condition::FileRegex(p) => Trigger { name: String::from_str("file_regex"), description: p.clone() },
        Condition::PromptRegex(p) => Trigger { name: String::from_str("prompt_regex"), description: p.clone() },
        Condition::BranchRegex(p) => Trigger { name: String::from_str("branch_regex"), description: p.clone() },
        Condition::LlmTag(p) => Trigger { name: String::from_str("llm_tag"), description: p.clone() },
        Condition::GitLifecycle(p) => Trigger { name: String::from_str("git_lifecycle"), description: p.clone() },
    }
}

/// 85 for a match through a semantic tag, 100 for any other.
pub fn match_confidence(c: &Condition) -> (r: u8)
    ensures
        r == confidence_for(*c),
{
    if matches!(c, Condition::LlmTag(_)) {
        85
    } else {
        100
    }
}

/// The facts of an instruction.
pub struct InstructionView {
    pub trigger_name: Seq<char>,
    pub trigger_description: Seq<char>,
    pub instructions: Option<Seq<char>>,
    pub files: Seq<Seq<char>>,
    pub confidence: u8,
    pub priority: u8,
    pub agent_name: Seq<char>,
    pub agent_description: Seq<char>,
}

impl View for Instruction {
    type V = InstructionView;

    open spec fn view(&self) -> InstructionView {
        InstructionView {
            trigger_name: self.trigger.name@,
            trigger_description: self.trigger.description@,
            instructions: string_opt_view(self.context.instructions),
            files: self.context.files.deep_view(),
            confidence: self.context.confidence,
            priority: self.context.priority,
            agent_name: self.route_to_agent.name@,
            agent_description: self.route_to_agent.description@,
        }
    }
}

pub open spec fn instruction_views(v: Seq<Instruction>) -> Seq<InstructionView> {
    v.map_values(|i: Instruction| i@)
}

/// The instruction that routes to agent `a` because leaf `c` fired.
pub open spec fn instruction_for(c: Condition, a: AgentDefinition, files: Seq<Seq<char>>) -> InstructionView {
    InstructionView {
        trigger_name: kind_name(c),
        trigger_description: leaf_text(c),
        instructions: string_opt_view(a.instructions),
        files,
        confidence: confidence_for(c),
        priority: a.priority,
        agent_name: a.name@,
        agent_description: a.description@,
    }
}

/// Index of the first agent from `k` on that bears `name`.
pub open spec fn agent_index(agents: Seq<AgentDefinition>, name: Seq<char>, k: int) -> Option<int>
    decreases agents.len() - k,
{
    if k < 0 || k >= agents.len() {
        None
    } else if agents[k].name@ == name {
        Some(k)
    } else {
        agent_index(agents, name, k + 1)
    }
}

pub open spec fn routes_to(acc: Seq<InstructionView>, name: Seq<char>) -> bool {
    exists|j: int| 0 <= j < acc.len() && (#[trigger] acc[j]).agent_name == name
}

/// `acc` extended, target by target, with an instruction for each target not
/// routed to yet that the agent directory knows.
pub open spec fn add_agents(
    acc: Seq<InstructionView>,
    targets: Seq<Seq<char>>,
    c: Condition,
    agents: Seq<AgentDefinition>,
    files: Seq<Seq<char>>,
) -> Seq<InstructionView>
    decreases targets.len(),
{
    if targets.len() == 0 {
        acc
    } else {
        let prev = add_agents(acc, targets.drop_last(), c, agents, files);
        if routes_to(prev, targets.last()) {
            prev
        } else {
            match agent_index(agents, targets.last(), 0) {
                Some(k) => prev.push(instruction_for(c, agents[k], files)),
                None => prev,
            }
        }
    }
}

/// The instructions for all rules, in rule order: each rule that matches adds
/// its targets, the first rule to reach an agent wins.
pub open spec fn instructions_for(
    rules: Seq<Rule>,
    req: RequestView,
    tags: Seq<Seq<char>>,
    agents: Seq<AgentDefinition>,
) -> Seq<InstructionView>
    decreases rules.len(),
{
    if rules.len() == 0 {
        Seq::empty()
    } else {
        let prev = instructions_for(rules.drop_last(), req, tags, agents);
        let r = rules.last();
        match tree_match(r.conditions, req, tags) {
            Some(c) => add_agents(prev, r.route_to_subagents.deep_view(), c, agents, context_files(r.conditions, req.files)),
            None => prev,
        }
    }
}

fn has_instruction_for(instructions: &Vec<Instruction>, name: &String) -> (r: bool)
    ensures
        r == routes_to(instruction_views(instructions@), name@),
{
    let ghost vs = instruction_views(instructions@);
    let mut i: usize = 0;
    while i < instructions.len()
        invariant
            i <= instructions.len(),
            vs == instruction_views(instructions@),
            forall|j: int| 0 <= j < i ==> (#[trigger] vs[j]).agent_name != name@,
        decreases instructions.len() - i,
    {
        if instructions[i].route_to_agent.name == *name {
            assert(vs[i as int].agent_name == name@);
            return true;
        }
        i += 1;
    }
    false
}

fn lookup_agent(agents: &Vec<AgentDefinition>, name: &String) -> (r: Option<usize>)
    ensures
        r matches Some(k) ==> k < agents.len() && agent_index(agents@, name@, 0) == Some(k as int),
        r is None ==> agent_index(agents@, name@, 0) is None,
{
    let mut i: usize = 0;
    while i < agents.len()
        invariant
            i <= agents.len(),
            agent_index(agents@, name@, 0) == agent_index(agents@, name@, i as int),
        decreases agents.len() - i,
    {
        if agents[i].name == *name {
            return Some(i);
        }
        i += 1;
    }
    None
}

fn build_instruction(c: &Condition, a: &AgentDefinition, files: Vec<String>) -> (r: Instruction)
    ensures
        r@ == instruction_for(*c, *a, files.deep_view()),
{
    let instructions = match &a.instructions {
        Some(t) => Some(t.clone()),
        None => None,
    };
    Instruction {
        trigger: trigger_for(c),
        context: InstructionContext { instructions, files, confidence: match_confidence(c), priority: a.priority },
        route_to_agent: AgentInfo { name: a.name.clone(), description: a.description.clone() },
    }
}

/// Evaluates every rule with the tags at hand and builds one instruction per
/// agent reached, in the order agents are first reached.
pub fn apply_all_rules_with_details(
    input: &ClassificationInput,
    llm_tags: &[String],
    rules_config: &RulesConfig,
    user_config: &UserConfig,
    cache: &mut PatternCache,
) -> (r: Vec<Instruction>)
    requires
        old(cache).wf(),
    ensures
        final(cache).wf(),
        cache_grows(old(cache)@, final(cache)@),
        instruction_views(r@) == instructions_for(rules_config.rules@, input@, llm_tags.deep_view(), user_config.agents@),
{
    let rules = &rules_config.rules;
    let agents = &user_config.agents;
    let files: Vec<String> = match &input.associated_files {
        Some(f) => {
            let g = f.clone();
            proof {
                vstd::std_specs::vec::vec_clone_deep_view_proof(*f, g);
            }
            g
        },
        None => Vec::new(),
    };
    assert(files.deep_view() =~= input@.files);
    let mut instructions: Vec<Instruction> = Vec::new();
    proof {
        lemma_cache_grows_refl(cache@);
        assert(instruction_views(instructions@) =~= instructions_for(rules@.subrange(0, 0), input@, llm_tags.deep_view(), agents@));
    }
    let mut i: usize = 0;
    while i < rules.len()
        invariant
            i <= rules.len(),
            cache.wf(),
            cache_grows(old(cache)@, cache@),
            files.deep_view() == input@.files,
            instruction_views(instructions@) == instructions_for(rules@.subrange(0, i as int), input@, llm_tags.deep_view(), agents@),
        decreases rules.len() - i,
    {
        let rule = &rules[i];
        let ghost before = cache@;
        let ghost start = instruction_views(instructions@);
        proof {
            assert(rules@.subrange(0, i + 1).drop_last() =~= rules@.subrange(0, i as int));
            assert(rules@.subrange(0, i + 1).last() == rules@[i as int]);
        }
        let found = evaluate_rule_with_details(&rule.conditions, input, llm_tags, cache);
        proof {
            lemma_cache_grows_trans(old(cache)@, before, cache@);
        }
        if let Some(c) = found {
            let ghost mid = cache@;
            let ctx_files = find_matched_files(&rule.conditions, &files, cache);
            proof {
                lemma_cache_grows_trans(old(cache)@, mid, cache@);
            }
            let targets = &rule.route_to_subagents;
            let ghost tv = targets.deep_view();
            proof {
                assert(tv.subrange(0, 0) =~= Seq::<Seq<char>>::empty());
            }
            let mut j: usize = 0;
            while j < targets.len()
                invariant
                    j <= targets.len(),
                    tv == targets.deep_view(),
                    cache.wf(),
                    cache_grows(old(cache)@, cache@),
                    ctx_files.deep_view() == context_files(rule.conditions, input@.files),
                    instruction_views(instructions@) == add_agents(start, tv.subrange(0, j as int), c, agents@, ctx_files.deep_view()),
                decreases targets.len() - j,
            {
                let ghost prev = instruction_views(instructions@);
                proof {
                    assert(tv.subrange(0, j + 1).drop_last() =~= tv.subrange(0, j as int));
                    assert(tv.subrange(0, j + 1).last() == tv[j as int]);
                }
                let name = &targets[j];
                if !has_instruction_for(&instructions, name) {
                    if let Some(k) = lookup_agent(agents, name) {
                        let fs = ctx_files.clone();
                        proof {
                            vstd::std_specs::vec::vec_clone_deep_view_proof(ctx_files, fs);
                        }
                        let ins = build_instruction(&c, &agents[k], fs);
                        instructions.push(ins);
                        assert(instruction_views(instructions@) =~= prev.push(ins@));
                    }
                }
                j += 1;
            }
            assert(tv.subrange(0, j as int) =~= tv);
        }
        i += 1;
    }
    assert(rules@.subrange(0, i as int) =~= rules@);
    instructions
}

/// An instruction's confidence is 85 when its trigger is a semantic tag and
/// 100 otherwise.
pub open spec fn confidence_consistent(v: InstructionView) -> bool {
    v.confidence == (if v.trigger_name == "llm_tag"@ {
        85u8
    } else {
        100u8
    })
}

proof fn lemma_instruction_for_confidence(c: Condition, a: AgentDefinition, files: Seq<Seq<char>>)
    ensures
        confidence_consistent(instruction_for(c, a, files)),
{
    reveal_strlit("llm_tag");
    reveal_strlit("file_pattern");
    reveal_strlit("file_regex");
    reveal_strlit("prompt_regex");
    reveal_strlit("branch_regex");
    reveal_strlit("git_lifecycle");
    assert("llm_tag"@.len() == 7);
    if !(c is LlmTag) {
        assert(kind_name(c).len() != 7);
    }
}

proof fn lemma_add_agents_confidence(
    acc: Seq<InstructionView>,
    targets: Seq<Seq<char>>,
    c: Condition,
    agents: Seq<AgentDefinition>,
    files: Seq<Seq<char>>,
)
    requires
        forall|k: int| 0 <= k < acc.len() ==> confidence_consistent(#[trigger] acc[k]),
    ensures
        forall|k: int| 0 <= k < add_agents(acc, targets, c, agents, files).len()
            ==> confidence_consistent(#[trigger] add_agents(acc, targets, c, agents, files)[k]),
    decreases targets.len(),
{
    if targets.len() > 0 {
        lemma_add_agents_confidence(acc, targets.drop_last(), c, agents, files);
        let prev = add_agents(acc, targets.drop_last(), c, agents, files);
        if let Some(k) = agent_index(agents, targets.last(), 0) {
            lemma_instruction_for_confidence(c, agents[k], files);
            let out = add_agents(acc, targets, c, agents, files);
            assert forall|m: int| 0 <= m < out.len() implies confidence_consistent(#[trigger] out[m]) by {
                if m < prev.len() {
                    assert(confidence_consistent(prev[m]));
                }
            }
        }
    }
}

/// Every instruction built carries confidence 85 when its trigger is a
/// semantic tag, and 100 when it is any other kind of leaf.
pub proof fn lemma_instruction_confidence(
    rules: Seq<Rule>,
    req: RequestView,
    tags: Seq<Seq<char>>,
    agents: Seq<AgentDefinition>,
)
    ensures
        forall|k: int| 0 <= k < instructions_for(rules, req, tags, agents).len()
            ==> confidence_consistent(#[trigger] instructions_for(rules, req, tags, agents)[k]),
    decreases rules.len(),
{
    if rules.len() > 0 {
        lemma_instruction_confidence(rules.drop_last(), req, tags, agents);
        let r = rules.last();
        if let Some(c) = tree_match(r.conditions, req, tags) {
            lemma_add_agents_confidence(
                instructions_for(rules.drop_last(), req, tags, agents),
                r.route_to_subagents.deep_view(),
                c,
                agents,
                context_files(r.conditions, req.files),
            );
        }
    }
}

/// No two instructions route to the same agent.
pub open spec fn one_per_agent(v: Seq<InstructionView>) -> bool {
    forall|i: int, j: int| 0 <= i < j < v.len() ==> (#[trigger] v[i]).agent_name != (#[trigger] v[j]).agent_name
}

proof fn lemma_agent_index(agents: Seq<AgentDefinition>, name: Seq<char>, k: int)
    requires
        0 <= k,
    ensures
        agent_index(agents, name, k) matches Some(m) ==> k <= m < agents.len() && agents[m].name@ == name,
    decreases agents.len() - k,
{
    if k < agents.len() && agents[k].name@ != name {
        lemma_agent_index(agents, name, k + 1);
    }
}

proof fn lemma_add_agents_one_per_agent(
    acc: Seq<InstructionView>,
    targets: Seq<Seq<char>>,
    c: Condition,
    agents: Seq<AgentDefinition>,
    files: Seq<Seq<char>>,
)
    requires
        one_per_agent(acc),
    ensures
        one_per_agent(add_agents(acc, targets, c, agents, files)),
    decreases targets.len(),
{
    if targets.len() > 0 {
        lemma_add_agents_one_per_agent(acc, targets.drop_last(), c, agents, files);
        let prev = add_agents(acc, targets.drop_last(), c, agents, files);
        let name = targets.last();
        if !routes_to(prev, name) {
            lemma_agent_index(agents, name, 0);
            if let Some(k) = agent_index(agents, name, 0) {
                let out = prev.push(instruction_for(c, agents[k], files));
                assert forall|i: int, j: int| 0 <= i < j < out.len() implies (#[trigger] out[i]).agent_name != (#[trigger] out[j]).agent_name by {
                    if j == prev.len() {
                        assert(out[i] == prev[i]);
                    } else {
                        assert(out[i] == prev[i] && out[j] == prev[j]);
                    }
                }
            }
        }
    }
}

/// Each agent gets at most one instruction: the first rule to reach it wins.
pub proof fn lemma_one_instruction_per_agent(
    rules: Seq<Rule>,
    req: RequestView,
    tags: Seq<Seq<char>>,
    agents: Seq<AgentDefinition>,
)
    ensures
        one_per_agent(instructions_for(rules, req, tags, agents)),
    decreases rules.len(),
{
    if rules.len() > 0 {
        lemma_one_instruction_per_agent(rules.drop_last(), req, tags, agents);
        let r = rules.last();
        if let Some(c) = tree_match(r.conditions, req, tags) {
            lemma_add_agents_one_per_agent(
                instructions_for(rules.drop_last(), req, tags, agents),
                r.route_to_subagents.deep_view(),
                c,
                agents,
                context_files(r.conditions, req.files),
            );
        }
    }
}

/// Whether rule matches alone settle a request: it declares files, its git
/// context lists changed files, or its intent (lower-cased) speaks of a commit
/// or a pull request.
pub open spec fn confident(input: ClassificationInput, lowered_intent: Seq<char>) -> bool {
    (input.associated_files matches Some(f) && f.len() > 0)
        || (input.git_context matches Some(g) && g.changed_files.len() > 0)
        || contains_text(lowered_intent, "commit"@)
        || contains_text(lowered_intent, "pull_request"@)
}

/// The confidence test, given the request's intent already lower-cased.
pub fn is_high_confidence_lowered(input: &ClassificationInput, lowered_intent: &str) -> (r: bool)
    ensures
        r == confident(*input, lowered_intent@),
{
    let has_files = match &input.associated_files {
        Some(f) => f.len() > 0,
        None => false,
    };
    let has_git_files = match &input.git_context {
        Some(g) => g.changed_files.len() > 0,
        None => false,
    };
    has_files || has_git_files || text_contains(lowered_intent, "commit") || text_contains(lowered_intent, "pull_request")
}

pub open spec fn rec_names(v: Seq<AgentRecommendation>) -> Seq<Seq<char>> {
    v.map_values(|a: AgentRecommendation| a.name@)
}

pub open spec fn rec_reasons(v: Seq<AgentRecommendation>) -> Seq<Seq<char>> {
    v.map_values(|a: AgentRecommendation| a.reason@)
}

/// The facts of a flat classification result.
pub struct ResultView {
    pub agents: Seq<Seq<char>>,
    pub reasons: Seq<Seq<char>>,
    pub reasoning: Seq<char>,
    pub method: Seq<char>,
    pub llm_tags: Option<Seq<Seq<char>>>,
}

impl View for ClassificationResult {
    type V = ResultView;

    open spec fn view(&self) -> ResultView {
        ResultView {
            agents: rec_names(self.agents@),
            reasons: rec_reasons(self.agents@),
            reasoning: self.reasoning@,
            method: self.method@,
            llm_tags: match self.llm_tags {
                Some(t) => Some(t.deep_view()),
                None => None,
            },
        }
    }
}

/// The answer of the rules alone.
pub open spec fn rules_result(agents: Seq<Seq<char>>) -> ResultView {
    ResultView {
        agents,
        reasons: Seq::new(agents.len(), |i: int| "Matched file pattern or trigger"@),
        reasoning: "Clear rule-based matches"@,
        method: "rules"@,
        llm_tags: None,
    }
}

/// The answer of the rules together with the semantic tags.
pub open spec fn tagged_result(agents: Seq<Seq<char>>, tags: Seq<Seq<char>>) -> ResultView {
    ResultView {
        agents,
        reasons: Seq::new(agents.len(), |i: int| "Matched via rules or LLM tags"@),
        reasoning: "Rules + LLM semantic tags"@,
        method: "rules+llm-tags"@,
        llm_tags: Some(tags),
    }
}

fn recommendations(names: &Vec<String>, reason: &str) -> (r: Vec<AgentRecommendation>)
    ensures
        rec_names(r@) == names.deep_view(),
        rec_reasons(r@) == Seq::new(names.len() as nat, |i: int| reason@),
{
    let mut out: Vec<AgentRecommendation> = Vec::new();
    let mut i: usize = 0;
    while i < names.len()
        invariant
            i <= names.len(),
            out@.len() == i,
            rec_names(out@) == names.deep_view().subrange(0, i as int),
            rec_reasons(out@) == Seq::new(i as nat, |k: int| reason@),
        decreases names.len() - i,
    {
        let rec = AgentRecommendation { name: names[i].clone(), reason: String::from_str(reason) };
        let ghost prev = out@;
        out.push(rec);
        proof {
            assert(rec.name@ == names.deep_view()[i as int]);
            assert(rec_names(out@) =~= names.deep_view().subrange(0, i + 1)) by {
                assert forall|k: int| 0 <= k < i + 1 implies #[trigger] rec_names(out@)[k] == names.deep_view().subrange(0, i + 1)[k] by {
                    if k < i {
                        assert(rec_names(prev)[k] == names.deep_view().subrange(0, i as int)[k]);
                    }
                }
            }
            assert(rec_reasons(out@) =~= Seq::new((i + 1) as nat, |k: int| reason@)) by {
                assert forall|k: int| 0 <= k < i + 1 implies #[trigger] rec_reasons(out@)[k] == reason@ by {
                    if k < i {
                        assert(rec_reasons(prev)[k] == Seq::new(i as nat, |m: int| reason@)[k]);
                    }
                }
            }
        }
        i += 1;
    }
    assert(names.deep_view().subrange(0, i as int) =~= names.deep_view());
    out
}

/// Where the rules stage leaves a request.
pub enum RulesStage {
    /// The rules settled it.
    Decided(ClassificationResult),
    /// Semantic tags are needed; carries the agents the rules found so far.
    NeedsTags(Vec<String>),
}

/// `Input validation failed: <reason>`.
pub open spec fn validation_failure(reason: Seq<char>) -> Seq<char> {
    "Input validation failed: "@ + reason
}

fn validated(input: &ClassificationInput) -> (r: Result<(), String>)
    ensures
        r is Ok <==> input_error(*input) is None,
        r matches Err(e) ==> input_error(*input) matches Some(m) && e@ == validation_failure(m),
{
    match input.validate() {
        Ok(()) => Ok(()),
        Err(e) => {
            let mut m = String::from_str("Input validation failed: ");
            m.append(e.as_str());
            Err(m)
        },
    }
}

/// Validates the request and runs the rules without tags. When they find
/// agents and the request is confident, that is the answer; otherwise the
/// agents found so far wait for the semantic tags.
pub fn classify_rules_stage(input: &ClassificationInput, rules_config: &RulesConfig, cache: &mut PatternCache) -> (r: Result<RulesStage, String>)
    requires
        old(cache).wf(),
    ensures
        final(cache).wf(),
        cache_grows(old(cache)@, final(cache)@),
        r is Err <==> input_error(*input) is Some,
        r matches Err(e) ==> input_error(*input) matches Some(m) && e@ == validation_failure(m),
        r matches Ok(RulesStage::Decided(res)) ==> {
            let a = routed(rules_config.rules@, input@, Seq::empty(), false);
            &&& a.len() > 0
            &&& confident(*input, lower_of(input.intent@))
            &&& res@ == rules_result(a)
        },
        r matches Ok(RulesStage::NeedsTags(v)) ==> {
            let a = routed(rules_config.rules@, input@, Seq::empty(), false);
            &&& !(a.len() > 0 && confident(*input, lower_of(input.intent@)))
            &&& v.deep_view() == a
        },
{
    proof {
        lemma_cache_grows_refl(cache@);
    }
    if let Err(e) = validated(input) {
        return Err(e);
    }
    let agents = apply_rules_cached(input, rules_config, cache);
    if agents.len() > 0 {
        let lowered = lowercase(input.intent.as_str());
        if is_high_confidence_lowered(input, lowered.as_str()) {
            let recs = recommendations(&agents, "Matched file pattern or trigger");
            let res = ClassificationResult {
                agents: recs,
                reasoning: String::from_str("Clear rule-based matches"),
                method: String::from_str("rules"),
                llm_tags: None,
            };
            assert(res@.reasons =~= rules_result(agents.deep_view()).reasons);
            return Ok(RulesStage::Decided(res));
        }
    }
    Ok(RulesStage::NeedsTags(agents))
}

/// Runs the tag pass with the tags obtained, and appends its agents, not yet
/// present, to those the rules found; an empty list is a valid answer.
pub fn classify_tags_stage(rule_agents: Vec<String>, llm_tags: Vec<String>, rules_config: &RulesConfig, cache: &mut PatternCache) -> (r: ClassificationResult)
    requires
        old(cache).wf(),
    ensures
        final(cache).wf(),
        cache_grows(old(cache)@, final(cache)@),
        r@ == tagged_result(append_new(rule_agents.deep_view(), routed(rules_config.rules@, empty_request(), llm_tags.deep_view(), true)), llm_tags.deep_view()),
{
    let tag_agents = apply_llm_tag_rules_cached(llm_tags.as_slice(), rules_config, cache);
    let mut all = rule_agents;
    push_new_names(&mut all, &tag_agents);
    let recs = recommendations(&all, "Matched via rules or LLM tags");
    let res = ClassificationResult {
        agents: recs,
        reasoning: String::from_str("Rules + LLM semantic tags"),
        method: String::from_str("rules+llm-tags"),
        llm_tags: Some(llm_tags),
    };
    assert(res@.reasons =~= tagged_result(all.deep_view(), llm_tags.deep_view()).reasons);
    res
}

/// Validates the request and builds the enriched answer from every rule,
/// with the tags at hand.
pub fn classify_enhanced_stage(
    input: &ClassificationInput,
    llm_tags: &[String],
    rules_config: &RulesConfig,
    user_config: &UserConfig,
    cache: &mut PatternCache,
) -> (r: Result<InstructionsResponse, String>)
    requires
        old(cache).wf(),
    ensures
        final(cache).wf(),
        cache_grows(old(cache)@, final(cache)@),
        r is Err <==> input_error(*input) is Some,
        r matches Err(e) ==> input_error(*input) matches Some(m) && e@ == validation_failure(m),
        r matches Ok(resp) ==> instruction_views(resp.instructions@) == instructions_for(rules_config.rules@, input@, llm_tags.deep_view(), user_config.agents@),
{
    proof {
        lemma_cache_grows_refl(cache@);
    }
    if let Err(e) = validated(input) {
        return Err(e);
    }
    let instructions = apply_all_rules_with_details(input, llm_tags, rules_config, user_config, cache);
    Ok(InstructionsResponse { instructions })
}

/// The routing engine: the configuration loaded at start-up and the cache of
/// compiled patterns, shared by every request.
pub struct Classifier {
    pub user_config: UserConfig,
    pub tag_config: LlmTagConfig,
    pub rules_config: RulesConfig,
    pub cache: PatternCache,
}

impl Classifier {
    pub open spec fn wf(&self) -> bool {
        self.cache.wf()
    }

    /// The patterns the engine has compiled so far, and its warnings.
    pub open spec fn cache_view(&self) -> crate::pattern::CacheView {
        self.cache@
    }

    /// An engine with empty configuration, which routes nothing.
    pub fn new() -> (r: Classifier)
        ensures
            r.wf(),
            r.user_config.agents.len() == 0,
            r.tag_config.tags.len() == 0,
            r.rules_config.rules.len() == 0,
    {
        Classifier {
            user_config: UserConfig { agents: Vec::new() },
            tag_config: LlmTagConfig { tags: Vec::new() },
            rules_config: RulesConfig { rules: Vec::new() },
            cache: PatternCache::new(),
        }
    }

    /// An engine with the given configuration.
    pub fn with_configs(user_config: UserConfig, tag_config: LlmTagConfig, rules_config: RulesConfig) -> (r: Classifier)
        ensures
            r.wf(),
            r.user_config == user_config,
            r.tag_config == tag_config,
            r.rules_config == rules_config,
    {
        Classifier { user_config, tag_config, rules_config, cache: PatternCache::new() }
    }

    /// Whether rule matches alone settle the request (the agents found play no part).
    pub fn is_high_confidence(&self, _agents: &[String], input: &ClassificationInput) -> (r: bool)
        ensures
            r == confident(*input, lower_of(input.intent@)),
    {
        let lowered = lowercase(input.intent.as_str());
        is_high_confidence_lowered(input, lowered.as_str())
    }

    /// The rules stage, with the request's own rules when it brings them.
    pub fn classify_start(&mut self, input: &ClassificationInput, rules_override: Option<&RulesConfig>) -> (r: Result<RulesStage, String>)
        requires
            old(self).wf(),
        ensures
            final(self).wf(),
            cache_grows(old(self).cache_view(), final(self).cache_view()),
            final(self).rules_config == old(self).rules_config,
            final(self).user_config == old(self).user_config,
            final(self).tag_config == old(self).tag_config,
            ({
                let rules = match rules_override {
                    Some(x) => *x,
                    None => old(self).rules_config,
                };
                let a = routed(rules.rules@, input@, Seq::empty(), false);
                &&& (r is Err <==> input_error(*input) is Some)
                &&& (r matches Err(e) ==> input_error(*input) matches Some(m) && e@ == validation_failure(m))
                &&& (r matches Ok(RulesStage::Decided(res)) ==> a.len() > 0 && confident(*input, lower_of(input.intent@)) && res@ == rules_result(a))
                &&& (r matches Ok(RulesStage::NeedsTags(v)) ==> !(a.len() > 0 && confident(*input, lower_of(input.intent@))) && v.deep_view() == a)
            }),
    {
        let rules = match rules_override {
            Some(x) => x,
            None => &self.rules_config,
        };
        classify_rules_stage(input, rules, &mut self.cache)
    }

    /// The tag stage, with the tags the tagging service returned.
    pub fn classify_finish(&mut self, rule_agents: Vec<String>, llm_tags: Vec<String>, rules_override: Option<&RulesConfig>) -> (r: ClassificationResult)
        requires
            old(self).wf(),
        ensures
            final(self).wf(),
            cache_grows(old(self).cache_view(), final(self).cache_view()),
            final(self).rules_config == old(self).rules_config,
            final(self).user_config == old(self).user_config,
            final(self).tag_config == old(self).tag_config,
            ({
                let rules = match rules_override {
                    Some(x) => *x,
                    None => old(self).rules_config,
                };
                r@ == tagged_result(append_new(rule_agents.deep_view(), routed(rules.rules@, empty_request(), llm_tags.deep_view(), true)), llm_tags.deep_view())
            }),
    {
        let rules = match rules_override {
            Some(x) => x,
            None => &self.rules_config,
        };
        classify_tags_stage(rule_agents, llm_tags, rules, &mut self.cache)
    }

    /// The enriched answer, with the request's own rules and agents when it
    /// brings them, and the tags the tagging service returned.
    pub fn classify_enhanced_with_tags(
        &mut self,
        input: &ClassificationInput,
        llm_tags: &[String],
        rules_override: Option<&RulesConfig>,
        users_override: Option<&UserConfig>,
    ) -> (r: Result<InstructionsResponse, String>)
        requires
            old(self).wf(),
        ensures
            final(self).wf(),
            cache_grows(old(self).cache_view(), final(self).cache_view()),
            final(self).rules_config == old(self).rules_config,
            final(self).user_config == old(self).user_config,
            final(self).tag_config == old(self).tag_config,
            ({
                let rules = match rules_override {
                    Some(x) => *x,
                    None => old(self).rules_config,
                };
                let users = match users_override {
                    Some(x) => *x,
                    None => old(self).user_config,
                };
                &&& (r is Err <==> input_error(*input) is Some)
                &&& (r matches Err(e) ==> input_error(*input) matches Some(m) && e@ == validation_failure(m))
                &&& (r matches Ok(resp) ==> instruction_views(resp.instructions@) == instructions_for(rules.rules@, input@, llm_tags.deep_view(), users.agents@))
            }),
    {
        let rules = match rules_override {
            Some(x) => x,
            None => &self.rules_config,
        };
        let users = match users_override {
            Some(x) => x,
            None => &self.user_config,
        };
        classify_enhanced_stage(input, llm_tags, rules, users, &mut self.cache)
    }
}

} // verus!
