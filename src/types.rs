//! Requests, configuration and responses, with the checks that guard them.

use vstd::prelude::*;
use crate::text::{byte_len, decimal, decimal_text, is_blank, text_byte_len, text_is_blank};

verus! {

/// Longest task, intent or original prompt accepted, in bytes.
pub const MAX_PROMPT_LENGTH: usize = 10000;

/// Most files a request may name, in one list or across the git lists.
pub const MAX_FILES_COUNT: usize = 100;

/// Longest file or configuration path accepted, in bytes.
pub const MAX_FILE_PATH_LENGTH: usize = 1000;

/// Longest branch name accepted, in bytes.
pub const MAX_BRANCH_LENGTH: usize = 200;

/// One routing request.
#[derive(Debug, Clone)]
pub struct ClassificationInput {
    /// What the caller is doing.
    pub task: String,
    /// Why the caller asks (for example "review code before commit").
    pub intent: String,
    /// The user's own words, when the caller kept them.
    pub original_prompt: Option<String>,
    /// The files the caller declares relevant; the only files that file rules see.
    pub associated_files: Option<Vec<String>>,
    /// Version-control state; only the branch takes part in matching.
    pub git_context: Option<GitContext>,
    pub agent_config_path: Option<String>,
    pub rules_config_path: Option<String>,
    pub llm_tags_path: Option<String>,
}

#[derive(Debug, Clone)]
pub struct GitContext {
    pub branch: String,
    pub changed_files: Vec<String>,
    pub staged_files: Vec<String>,
    /// The tag on the current commit, if any.
    pub tag: Option<String>,
}

/// The facts of a request that rules read.
pub struct RequestView {
    pub task: Seq<char>,
    pub intent: Seq<char>,
    pub original_prompt: Option<Seq<char>>,
    /// `associated_files`, or nothing when absent.
    pub files: Seq<Seq<char>>,
    /// The git branch, when a git context is given.
    pub branch: Option<Seq<char>>,
}

pub open spec fn string_opt_view(o: Option<String>) -> Option<Seq<char>> {
    match o {
        Some(s) => Some(s@),
        None => None,
    }
}

pub open spec fn files_view(o: Option<Vec<String>>) -> Seq<Seq<char>> {
    match o {
        Some(v) => v.deep_view(),
        None => Seq::empty(),
    }
}

impl View for ClassificationInput {
    type V = RequestView;

    open spec fn view(&self) -> RequestView {
        RequestView {
            task: self.task@,
            intent: self.intent@,
            original_prompt: string_opt_view(self.original_prompt),
            files: files_view(self.associated_files),
            branch: match self.git_context {
                Some(g) => Some(g.branch@),
                None => None,
            },
        }
    }
}

/// `field too long: N bytes (max: M bytes)`.
pub open spec fn too_long_msg(field: Seq<char>, n: usize, max: usize) -> Seq<char> {
    field + " too long: "@ + decimal(n as nat) + " bytes (max: "@ + decimal(max as nat) + " bytes)"@
}

/// `<head>N (max: M)`.
pub open spec fn too_many_msg(head: Seq<char>, n: nat, max: usize) -> Seq<char> {
    head + decimal(n) + " (max: "@ + decimal(max as nat) + ")"@
}

/// Byte length of the first path, from index `k` on, that is too long.
pub open spec fn first_long_path(paths: Seq<Seq<char>>, k: int) -> Option<usize>
    decreases paths.len() - k,
{
    if k < 0 || k >= paths.len() {
        None
    } else if byte_len(paths[k]) > MAX_FILE_PATH_LENGTH {
        Some(byte_len(paths[k]))
    } else {
        first_long_path(paths, k + 1)
    }
}

pub open spec fn path_too_long(o: Option<String>) -> bool {
    o matches Some(p) && byte_len(p@) > MAX_FILE_PATH_LENGTH
}

pub open spec fn prompt_error(x: ClassificationInput) -> Option<Seq<char>> {
    if byte_len(x.task@) > MAX_PROMPT_LENGTH {
        Some(too_long_msg("task"@, byte_len(x.task@), MAX_PROMPT_LENGTH))
    } else if byte_len(x.intent@) > MAX_PROMPT_LENGTH {
        Some(too_long_msg("intent"@, byte_len(x.intent@), MAX_PROMPT_LENGTH))
    } else {
        match x.original_prompt {
            Some(p) => if byte_len(p@) > MAX_PROMPT_LENGTH {
                Some(too_long_msg("original_prompt"@, byte_len(p@), MAX_PROMPT_LENGTH))
            } else {
                None
            },
            None => None,
        }
    }
}

pub open spec fn long_path_error(paths: Seq<Seq<char>>) -> Option<Seq<char>> {
    match first_long_path(paths, 0) {
        Some(n) => Some(too_long_msg("File path"@, n, MAX_FILE_PATH_LENGTH)),
        None => None,
    }
}

pub open spec fn files_error(o: Option<Vec<String>>) -> Option<Seq<char>> {
    match o {
        Some(f) => if f.len() > MAX_FILES_COUNT {
            Some(too_many_msg("Too many associated_files: "@, f.len() as nat, MAX_FILES_COUNT))
        } else {
            long_path_error(f.deep_view())
        },
        None => None,
    }
}

pub open spec fn git_error(o: Option<GitContext>) -> Option<Seq<char>> {
    match o {
        Some(g) => {
            let total = g.changed_files.len() + g.staged_files.len();
            let all = g.changed_files.deep_view() + g.staged_files.deep_view();
            if total > MAX_FILES_COUNT {
                Some(too_many_msg("Too many files: "@, total as nat, MAX_FILES_COUNT))
            } else if long_path_error(all) is Some {
                long_path_error(all)
            } else if byte_len(g.branch@) > MAX_BRANCH_LENGTH {
                Some("branch name too long (max: 200 bytes)"@)
            } else {
                None
            }
        },
        None => None,
    }
}

/// The first size limit a request breaks, as the message reported for it;
/// `None` when it breaks none.
pub open spec fn input_error(x: ClassificationInput) -> Option<Seq<char>> {
    if prompt_error(x) is Some {
        prompt_error(x)
    } else if files_error(x.associated_files) is Some {
        files_error(x.associated_files)
    } else if git_error(x.git_context) is Some {
        git_error(x.git_context)
    } else if path_too_long(x.agent_config_path) {
        Some("agent_config_path too long"@)
    } else if path_too_long(x.rules_config_path) {
        Some("rules_config_path too long"@)
    } else if path_too_long(x.llm_tags_path) {
        Some("llm_tags_path too long"@)
    } else {
        None
    }
}

fn too_long_message(field: &str, n: usize, max: usize) -> (r: String)
    ensures
        r@ == too_long_msg(field@, n, max),
{
    let mut m = String::from_str(field);
    m.append(" too long: ");
    m.append(decimal_text(n as u128).as_str());
    m.append(" bytes (max: ");
    m.append(decimal_text(max as u128).as_str());
    m.append(" bytes)");
    m
}

fn too_many_message(head: &str, n: u128, max: usize) -> (r: String)
    ensures
        r@ == too_many_msg(head@, n as nat, max),
{
    let mut m = String::from_str(head);
    m.append(decimal_text(n).as_str());
    m.append(" (max: ");
    m.append(decimal_text(max as u128).as_str());
    m.append(")");
    m
}

/// Scans `paths` from `start` for the first one too long, given that the
/// sequence `all` holds `paths` from index `offset` on.
fn scan_long_paths(paths: &Vec<String>, Ghost(all): Ghost<Seq<Seq<char>>>, offset: usize) -> (r: Option<usize>)
    requires
        offset + paths.len() <= all.len(),
        forall|j: int| 0 <= j < paths.len() ==> all[offset + j] == #[trigger] paths.deep_view()[j],
    ensures
        r is Some ==> r == first_long_path(all, offset as int),
        r is None ==> first_long_path(all, offset as int) == first_long_path(all, offset + paths.len()),
{
    let mut i: usize = 0;
    while i < paths.len()
        invariant
            i <= paths.len(),
            offset + paths.len() <= all.len(),
            forall|j: int| 0 <= j < paths.len() ==> all[offset + j] == #[trigger] paths.deep_view()[j],
            first_long_path(all, offset as int) == first_long_path(all, offset + i),
        decreases paths.len() - i,
    {
        let n = text_byte_len(&paths[i]);
        assert(all[offset + i] == paths.deep_view()[i as int]);
        if n > MAX_FILE_PATH_LENGTH {
            return Some(n);
        }
        i += 1;
    }
    None
}

fn config_path_too_long(o: &Option<String>) -> (r: bool)
    ensures
        r == path_too_long(*o),
{
    match o {
        Some(p) => text_byte_len(p) > MAX_FILE_PATH_LENGTH,
        None => false,
    }
}

impl ClassificationInput {
    /// Checks the request against its size limits, in a fixed order, and
    /// reports the first one broken.
    pub fn validate(&self) -> (r: Result<(), String>)
        ensures
            r is Ok <==> input_error(*self) is None,
            r matches Err(e) ==> input_error(*self) == Some(e@),
    {
        let n = text_byte_len(&self.task);
        if n > MAX_PROMPT_LENGTH {
            return Err(too_long_message("task", n, MAX_PROMPT_LENGTH));
        }
        let n = text_byte_len(&self.intent);
        if n > MAX_PROMPT_LENGTH {
            return Err(too_long_message("intent", n, MAX_PROMPT_LENGTH));
        }
        if let Some(p) = &self.original_prompt {
            let n = text_byte_len(p);
            if n > MAX_PROMPT_LENGTH {
                return Err(too_long_message("original_prompt", n, MAX_PROMPT_LENGTH));
            }
        }
        if let Some(files) = &self.associated_files {
            if files.len() > MAX_FILES_COUNT {
                return Err(too_many_message("Too many associated_files: ", files.len() as u128, MAX_FILES_COUNT));
            }
            let long = scan_long_paths(files, Ghost(files.deep_view()), 0);
            if let Some(n) = long {
                return Err(too_long_message("File path", n, MAX_FILE_PATH_LENGTH));
            }
            assert(first_long_path(files.deep_view(), files.len() as int) is None);
        }
        if let Some(ctx) = &self.git_context {
            let total = ctx.changed_files.len() as u128 + ctx.staged_files.len() as u128;
            if total > MAX_FILES_COUNT as u128 {
                return Err(too_many_message("Too many files: ", total, MAX_FILES_COUNT));
            }
            let ghost all = ctx.changed_files.deep_view() + ctx.staged_files.deep_view();
            let long = scan_long_paths(&ctx.changed_files, Ghost(all), 0);
            if let Some(n) = long {
                return Err(too_long_message("File path", n, MAX_FILE_PATH_LENGTH));
            }
            let long = scan_long_paths(&ctx.staged_files, Ghost(all), ctx.changed_files.len());
            if let Some(n) = long {
                return Err(too_long_message("File path", n, MAX_FILE_PATH_LENGTH));
            }
            assert(first_long_path(all, all.len() as int) is None);
            if text_byte_len(&ctx.branch) > MAX_BRANCH_LENGTH {
                return Err(String::from_str("branch name too long (max: 200 bytes)"));
            }
        }
        if config_path_too_long(&self.agent_config_path) {
            return Err(String::from_str("agent_config_path too long"));
        }
        if config_path_too_long(&self.rules_config_path) {
            return Err(String::from_str("rules_config_path too long"));
        }
        if config_path_too_long(&self.llm_tags_path) {
            return Err(String::from_str("llm_tags_path too long"));
        }
        Ok(())
    }
}

/// One recommended agent, with why it was chosen.
#[derive(Debug, Clone)]
pub struct AgentRecommendation {
    pub name: String,
    pub reason: String,
}

/// The flat answer: the agents, how they were found, and the tags used.
#[derive(Debug, Clone)]
pub struct ClassificationResult {
    pub agents: Vec<AgentRecommendation>,
    pub reasoning: String,
    /// `"rules"` or `"rules+llm-tags"`.
    pub method: String,
    pub llm_tags: Option<Vec<String>>,
}

/// The enriched answer: one instruction per agent routed to.
#[derive(Debug, Clone)]
pub struct InstructionsResponse {
    pub instructions: Vec<Instruction>,
}

/// A routing instruction: what fired, the context to hand over, and the agent.
#[derive(Debug, Clone)]
pub struct Instruction {
    pub trigger: Trigger,
    pub context: InstructionContext,
    pub route_to_agent: AgentInfo,
}

/// The kind of leaf that fired (`"file_pattern"`, `"llm_tag"`, ...) and its literal.
#[derive(Debug, Clone)]
pub struct Trigger {
    pub name: String,
    pub description: String,
}

#[derive(Debug, Clone)]
pub struct InstructionContext {
    /// The agent's own standing instructions.
    pub instructions: Option<String>,
    /// The request's files that bear on this routing.
    pub files: Vec<String>,
    /// 100 for a deterministic match, 85 for one through a semantic tag.
    pub confidence: u8,
    /// The agent's priority, passed through.
    pub priority: u8,
}

#[derive(Debug, Clone)]
pub struct AgentInfo {
    pub name: String,
    pub description: String,
}

/// A semantic tag with its confidence and the files it concerns.
#[derive(Debug, Clone)]
pub struct TagResult {
    pub tag: String,
    pub confidence: u8,
    pub files: Vec<String>,
}

/// A downstream handler that rules can route to.
#[derive(Debug, Clone)]
pub struct AgentDefinition {
    pub name: String,
    pub description: String,
    pub instructions: Option<String>,
    /// 0 to 100, higher is more important.
    pub priority: u8,
}

/// The priority an agent gets when its definition names none.
pub fn default_priority() -> (r: u8)
    ensures
        r == 50,
{
    50
}

/// Where the tagging model comes from; decides how its name is spelled.
#[derive(Debug, Clone, Copy, PartialEq, Eq, Structural)]
pub enum ModelSource {
    Ollama,
    HuggingFace,
}

/// The directory of agents.
#[derive(Debug, Clone)]
pub struct UserConfig {
    pub agents: Vec<AgentDefinition>,
}

/// The semantic tags the tagging service may return.
#[derive(Debug, Clone)]
pub struct LlmTagConfig {
    pub tags: Vec<LlmTagDefinition>,
}

#[derive(Debug, Clone)]
pub struct LlmTagDefinition {
    pub name: String,
    pub description: String,
    pub examples: Vec<String>,
}

/// The routing rules, in the order they are evaluated.
#[derive(Debug)]
pub struct RulesConfig {
    pub rules: Vec<Rule>,
}

/// A condition tree and the agents to route to when it holds.
#[derive(Debug)]
pub struct Rule {
    pub description: Option<String>,
    pub conditions: RuleConditions,
    pub route_to_subagents: Vec<String>,
}

/// A condition tree: one leaf, or a group that needs one or all of its children.
#[derive(Debug)]
pub enum RuleConditions {
    Single(Condition),
    AnyOf { any_of: Vec<RuleConditions> },
    AllOf { all_of: Vec<RuleConditions> },
}

/// A leaf of a condition tree.
#[derive(Debug, Clone)]
pub enum Condition {
    /// A glob over the associated files.
    FilePattern(String),
    /// A regular expression over the associated files.
    FileRegex(String),
    /// A regular expression over the task, the intent and the original prompt.
    PromptRegex(String),
    /// A regular expression over the git branch.
    BranchRegex(String),
    /// A semantic tag that the tagging service must have returned.
    LlmTag(String),
    /// A lifecycle event, which must equal the intent exactly.
    GitLifecycle(String),
}

/// At entry `k` or later, the first name that is blank or repeats an earlier one.
pub open spec fn first_bad_name(names: Seq<Seq<char>>, k: int) -> Option<int>
    decreases names.len() - k,
{
    if k < 0 || k >= names.len() {
        None
    } else if is_blank(names[k]) || names.subrange(0, k).contains(names[k]) {
        Some(k)
    } else {
        first_bad_name(names, k + 1)
    }
}

/// What a list of names that must be present, non-blank and distinct is
/// found to break first, under the messages of its owner.
pub open spec fn names_error(names: Seq<Seq<char>>, empty_msg: Seq<char>, blank_msg: Seq<char>, dup_prefix: Seq<char>) -> Option<Seq<char>> {
    if names.len() == 0 {
        Some(empty_msg)
    } else {
        match first_bad_name(names, 0) {
            Some(k) => if is_blank(names[k]) {
                Some(blank_msg)
            } else {
                Some(dup_prefix + names[k])
            },
            None => None,
        }
    }
}

/// Checks names as `names_error` describes.
fn check_names(names: &Vec<String>, empty_msg: &str, blank_msg: &str, dup_prefix: &str) -> (r: Result<(), String>)
    ensures
        r is Ok <==> names_error(names.deep_view(), empty_msg@, blank_msg@, dup_prefix@) is None,
        r matches Err(e) ==> names_error(names.deep_view(), empty_msg@, blank_msg@, dup_prefix@) == Some(e@),
{
    if names.len() == 0 {
        return Err(String::from_str(empty_msg));
    }
    let ghost nv = names.deep_view();
    let mut k: usize = 0;
    while k < names.len()
        invariant
            k <= names.len(),
            nv == names.deep_view(),
            first_bad_name(nv, 0) == first_bad_name(nv, k as int),
        decreases names.len() - k,
    {
        if text_is_blank(&names[k]) {
            return Err(String::from_str(blank_msg));
        }
        let mut j: usize = 0;
        while j < k
            invariant
                j <= k < names.len(),
                nv == names.deep_view(),
                first_bad_name(nv, 0) == first_bad_name(nv, k as int),
                !is_blank(nv[k as int]),
                forall|i: int| 0 <= i < j ==> #[trigger] nv[i] != nv[k as int],
            decreases k - j,
        {
            if names[j] == names[k] {
                assert(nv.subrange(0, k as int)[j as int] == nv[k as int]);
                assert(first_bad_name(nv, k as int) == Some(k as int));
                let mut m = String::from_str(dup_prefix);
                m.append(names[k].as_str());
                return Err(m);
            }
            j += 1;
        }
        assert(!nv.subrange(0, k as int).contains(nv[k as int])) by {
            if nv.subrange(0, k as int).contains(nv[k as int]) {
                let i = choose|i: int| 0 <= i < k && nv.subrange(0, k as int)[i] == nv[k as int];
                assert(nv[i] == nv[k as int]);
            }
        }
        k += 1;
    }
    Ok(())
}

pub open spec fn agent_names(agents: Seq<AgentDefinition>) -> Seq<Seq<char>> {
    agents.map_values(|a: AgentDefinition| a.name@)
}

pub open spec fn tag_names(tags: Seq<LlmTagDefinition>) -> Seq<Seq<char>> {
    tags.map_values(|t: LlmTagDefinition| t.name@)
}

impl UserConfig {
    /// At least one agent, and agent names non-blank and distinct.
    pub fn validate(&self) -> (r: Result<(), String>)
        ensures
            r is Ok <==> names_error(agent_names(self.agents@), "UserConfig must contain at least one agent"@, "Agent name cannot be empty"@, "Duplicate agent name: "@) is None,
            r matches Err(e) ==> names_error(agent_names(self.agents@), "UserConfig must contain at least one agent"@, "Agent name cannot be empty"@, "Duplicate agent name: "@) == Some(e@),
    {
        let mut names: Vec<String> = Vec::new();
        let mut i: usize = 0;
        while i < self.agents.len()
            invariant
                i <= self.agents.len(),
                names.deep_view() == agent_names(self.agents@).subrange(0, i as int),
            decreases self.agents.len() - i,
        {
            let ghost before = names.deep_view();
            let n = self.agents[i].name.clone();
            names.push(n);
            assert(names.deep_view() =~= before.push(self.agents@[i as int].name@));
            assert(agent_names(self.agents@).subrange(0, i + 1) =~= agent_names(self.agents@).subrange(0, i as int).push(self.agents@[i as int].name@));
            i += 1;
        }
        assert(agent_names(self.agents@).subrange(0, i as int) =~= agent_names(self.agents@));
        check_names(&names, "UserConfig must contain at least one agent", "Agent name cannot be empty", "Duplicate agent name: ")
    }
}

impl LlmTagConfig {
    /// At least one tag, and tag names non-blank and distinct.
    pub fn validate(&self) -> (r: Result<(), String>)
        ensures
            r is Ok <==> names_error(tag_names(self.tags@), "LlmTagConfig must contain at least one tag"@, "Tag name cannot be empty"@, "Duplicate tag name: "@) is None,
            r matches Err(e) ==> names_error(tag_names(self.tags@), "LlmTagConfig must contain at least one tag"@, "Tag name cannot be empty"@, "Duplicate tag name: "@) == Some(e@),
    {
        let mut names: Vec<String> = Vec::new();
        let mut i: usize = 0;
        while i < self.tags.len()
            invariant
                i <= self.tags.len(),
                names.deep_view() == tag_names(self.tags@).subrange(0, i as int),
            decreases self.tags.len() - i,
        {
            let ghost before = names.deep_view();
            let n = self.tags[i].name.clone();
            names.push(n);
            assert(names.deep_view() =~= before.push(self.tags@[i as int].name@));
            assert(tag_names(self.tags@).subrange(0, i + 1) =~= tag_names(self.tags@).subrange(0, i as int).push(self.tags@[i as int].name@));
            i += 1;
        }
        assert(tag_names(self.tags@).subrange(0, i as int) =~= tag_names(self.tags@));
        check_names(&names, "LlmTagConfig must contain at least one tag", "Tag name cannot be empty", "Duplicate tag name: ")
    }
}

/// A rule is faulty when it routes nowhere or names a blank agent.
pub open spec fn rule_faulty(r: Rule) -> bool {
    r.route_to_subagents.len() == 0 || exists|i: int| 0 <= i < r.route_to_subagents.len() && is_blank(#[trigger] r.route_to_subagents.deep_view()[i])
}

/// At index `k` or later, the first faulty rule.
pub open spec fn first_faulty_rule(rules: Seq<Rule>, k: int) -> Option<int>
    decreases rules.len() - k,
{
    if k < 0 || k >= rules.len() {
        None
    } else if rule_faulty(rules[k]) {
        Some(k)
    } else {
        first_faulty_rule(rules, k + 1)
    }
}

/// `Rule #N ...`, numbering rules from one.
pub open spec fn rule_msg(k: int, tail: Seq<char>) -> Seq<char> {
    "Rule #"@ + decimal((k + 1) as nat) + tail
}

pub open spec fn rules_error(rules: Seq<Rule>) -> Option<Seq<char>> {
    if rules.len() == 0 {
        Some("RulesConfig must contain at least one rule"@)
    } else {
        match first_faulty_rule(rules, 0) {
            Some(k) => if rules[k].route_to_subagents.len() == 0 {
                Some(rule_msg(k, " must route to at least one agent"@))
            } else {
                Some(rule_msg(k, " has empty agent name"@))
            },
            None => None,
        }
    }
}

fn rule_message(k: usize, tail: &str) -> (r: String)
    ensures
        r@ == rule_msg(k as int, tail@),
{
    let mut m = String::from_str("Rule #");
    m.append(decimal_text(k as u128 + 1).as_str());
    m.append(tail);
    m
}

impl RulesConfig {
    /// At least one rule, each routing to at least one agent, with no blank agent name.
    pub fn validate(&self) -> (r: Result<(), String>)
        ensures
            r is Ok <==> rules_error(self.rules@) is None,
            r matches Err(e) ==> rules_error(self.rules@) == Some(e@),
    {
        if self.rules.len() == 0 {
            return Err(String::from_str("RulesConfig must contain at least one rule"));
        }
        let mut k: usize = 0;
        while k < self.rules.len()
            invariant
                k <= self.rules.len(),
                first_faulty_rule(self.rules@, 0) == first_faulty_rule(self.rules@, k as int),
            decreases self.rules.len() - k,
        {
            let targets = &self.rules[k].route_to_subagents;
            if targets.len() == 0 {
                return Err(rule_message(k, " must route to at least one agent"));
            }
            let mut j: usize = 0;
            while j < targets.len()
                invariant
                    j <= targets.len(),
                    k < self.rules.len(),
                    *targets == self.rules@[k as int].route_to_subagents,
                    targets.len() > 0,
                    first_faulty_rule(self.rules@, 0) == first_faulty_rule(self.rules@, k as int),
                    forall|i: int| 0 <= i < j ==> !is_blank(#[trigger] targets.deep_view()[i]),
                decreases targets.len() - j,
            {
                if text_is_blank(&targets[j]) {
                    assert(is_blank(self.rules@[k as int].route_to_subagents.deep_view()[j as int]));
                    assert(rule_faulty(self.rules@[k as int]));
                    return Err(rule_message(k, " has empty agent name"));
                }
                j += 1;
            }
            k += 1;
        }
        Ok(())
    }
}

} // verus!
