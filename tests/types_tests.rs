use agent_router::types::{
    default_priority, AgentDefinition, ClassificationInput, Condition, GitContext, LlmTagConfig,
    LlmTagDefinition, Rule, RuleConditions, RulesConfig, UserConfig,
};

fn create_test_input(task: &str, intent: &str, files: Option<Vec<String>>, branch: Option<&str>) -> ClassificationInput {
    let git_context = branch.map(|b| GitContext {
        branch: b.to_string(),
        changed_files: files.clone().unwrap_or_default(),
        staged_files: vec![],
        tag: None,
    });
    ClassificationInput {
        task: task.to_string(),
        intent: intent.to_string(),
        original_prompt: None,
        associated_files: files,
        git_context,
        agent_config_path: None,
        rules_config_path: None,
        llm_tags_path: None,
    }
}

fn bare(task: String, intent: String) -> ClassificationInput {
    ClassificationInput {
        task,
        intent,
        original_prompt: None,
        associated_files: None,
        git_context: None,
        agent_config_path: None,
        rules_config_path: None,
        llm_tags_path: None,
    }
}

fn main_branch() -> Option<GitContext> {
    Some(GitContext { branch: "main".to_string(), changed_files: vec![], staged_files: vec![], tag: None })
}

#[test]
fn test_classification_input_validation_valid() {
    let input = create_test_input("Test task", "help with task", None, None);
    assert!(input.validate().is_ok());
}

#[test]
fn test_classification_input_validation_task_too_long() {
    let input = bare("x".repeat(20_000), "help".to_string());
    assert!(input.validate().is_err());
}

#[test]
fn test_classification_input_validation_too_many_files() {
    let mut input = bare("Test".to_string(), "help".to_string());
    input.associated_files = Some(vec!["file.txt".to_string(); 150]);
    input.git_context = main_branch();
    assert!(input.validate().is_err());
}

#[test]
fn test_classification_input_validation_file_path_too_long() {
    let mut input = bare("Test".to_string(), "help".to_string());
    input.associated_files = Some(vec!["x".repeat(2000)]);
    input.git_context = main_branch();
    assert!(input.validate().is_err());
}

#[test]
fn test_classification_input_intent_variations() {
    let intents = vec!["help with task", "review before commit", "prepare for pull_request", "custom intent"];
    for intent in intents {
        let input = create_test_input("Test task", intent, None, None);
        assert!(input.validate().is_ok());
    }
}

#[test]
fn test_classification_input_with_all_fields() {
    let input = ClassificationInput {
        task: "Test task".to_string(),
        intent: "help with task".to_string(),
        original_prompt: Some("Original user prompt".to_string()),
        associated_files: Some(vec!["file1.ts".to_string()]),
        git_context: Some(GitContext {
            branch: "feature/test".to_string(),
            changed_files: vec!["file2.ts".to_string()],
            staged_files: vec!["file3.ts".to_string()],
            tag: Some("v1.0.0".to_string()),
        }),
        agent_config_path: Some("/path/to/agents.json".to_string()),
        rules_config_path: Some("/path/to/rules.json".to_string()),
        llm_tags_path: Some("/path/to/tags.json".to_string()),
    };
    assert!(input.validate().is_ok());
}

#[test]
fn test_validation_edge_case_exact_limits() {
    let input = bare("x".repeat(10_000), "help".to_string());
    assert!(input.validate().is_ok());
    let input_over = bare("x".repeat(10_001), "help".to_string());
    assert!(input_over.validate().is_err());
}

#[test]
fn test_validation_exactly_100_files() {
    let mut input = bare("Test".to_string(), "help".to_string());
    input.associated_files = Some(vec!["file.txt".to_string(); 100]);
    input.git_context = main_branch();
    assert!(input.validate().is_ok());
}

#[test]
fn test_validation_101_files() {
    let mut input = bare("Test".to_string(), "help".to_string());
    input.associated_files = Some(vec!["file.txt".to_string(); 101]);
    input.git_context = main_branch();
    assert!(input.validate().is_err());
}

#[test]
fn test_validation_split_files_total_count() {
    let mut input = bare("Test".to_string(), "help".to_string());
    input.git_context = Some(GitContext {
        branch: "main".to_string(),
        changed_files: vec!["file.txt".to_string(); 50],
        staged_files: vec!["staged.txt".to_string(); 51],
        tag: None,
    });
    assert!(input.validate().is_err());
}

#[test]
fn test_unicode_in_task() {
    let input = create_test_input("Fix 🐛 in 日本語 code with émojis", "help with task", None, None);
    assert!(input.validate().is_ok());
}

#[test]
fn test_empty_task() {
    let input = create_test_input("", "review before commit", None, None);
    assert!(input.validate().is_ok());
}

#[test]
fn test_validation_intent_too_long() {
    let input = bare("Test".to_string(), "x".repeat(20_001));
    assert!(input.validate().is_err());
}

#[test]
fn test_validation_branch_name_too_long() {
    let mut input = bare("Test".to_string(), "help".to_string());
    input.git_context = Some(GitContext { branch: "x".repeat(201), changed_files: vec![], staged_files: vec![], tag: None });
    assert!(input.validate().is_err());
}

#[test]
fn test_validation_agent_config_path_too_long() {
    let mut input = bare("Test".to_string(), "help".to_string());
    input.agent_config_path = Some("x".repeat(1001));
    assert!(input.validate().is_err());
}

#[test]
fn test_validation_rules_config_path_too_long() {
    let mut input = bare("Test".to_string(), "help".to_string());
    input.rules_config_path = Some("x".repeat(1001));
    assert!(input.validate().is_err());
}

#[test]
fn test_validation_llm_tags_path_too_long() {
    let mut input = bare("Test".to_string(), "help".to_string());
    input.llm_tags_path = Some("x".repeat(1001));
    assert!(input.validate().is_err());
}

#[test]
fn validation_messages_are_exact() {
    assert_eq!(
        bare("x".repeat(10_001), String::new()).validate(),
        Err("task too long: 10001 bytes (max: 10000 bytes)".to_string())
    );
    assert_eq!(
        bare(String::new(), "é".repeat(5_001)).validate(),
        Err("intent too long: 10002 bytes (max: 10000 bytes)".to_string())
    );
    let mut input = bare(String::new(), String::new());
    input.original_prompt = Some("y".repeat(10_001));
    assert_eq!(input.validate(), Err("original_prompt too long: 10001 bytes (max: 10000 bytes)".to_string()));

    let mut input = bare(String::new(), String::new());
    input.associated_files = Some(vec!["a".to_string(); 101]);
    assert_eq!(input.validate(), Err("Too many associated_files: 101 (max: 100)".to_string()));

    let mut input = bare(String::new(), String::new());
    input.associated_files = Some(vec!["ok".to_string(), "z".repeat(1001), "w".repeat(1500)]);
    assert_eq!(input.validate(), Err("File path too long: 1001 bytes (max: 1000 bytes)".to_string()));

    let mut input = bare(String::new(), String::new());
    input.git_context = Some(GitContext {
        branch: "main".to_string(),
        changed_files: vec!["c".to_string(); 60],
        staged_files: vec!["s".to_string(); 41],
        tag: None,
    });
    assert_eq!(input.validate(), Err("Too many files: 101 (max: 100)".to_string()));

    let mut input = bare(String::new(), String::new());
    input.git_context = Some(GitContext {
        branch: "main".to_string(),
        changed_files: vec!["c".to_string()],
        staged_files: vec!["s".repeat(1200)],
        tag: None,
    });
    assert_eq!(input.validate(), Err("File path too long: 1200 bytes (max: 1000 bytes)".to_string()));

    let mut input = bare(String::new(), String::new());
    input.git_context = Some(GitContext { branch: "b".repeat(201), changed_files: vec![], staged_files: vec![], tag: None });
    assert_eq!(input.validate(), Err("branch name too long (max: 200 bytes)".to_string()));

    let mut input = bare(String::new(), String::new());
    input.rules_config_path = Some("p".repeat(1001));
    input.llm_tags_path = Some("p".repeat(1001));
    assert_eq!(input.validate(), Err("rules_config_path too long".to_string()));
}

fn agent(name: &str) -> AgentDefinition {
    AgentDefinition { name: name.to_string(), description: "d".to_string(), instructions: None, priority: default_priority() }
}

#[test]
fn user_config_checks() {
    assert_eq!(default_priority(), 50);
    assert!(UserConfig { agents: vec![agent("a"), agent("b")] }.validate().is_ok());
    assert_eq!(UserConfig { agents: vec![] }.validate(), Err("UserConfig must contain at least one agent".to_string()));
    assert_eq!(UserConfig { agents: vec![agent("a"), agent(" \t")] }.validate(), Err("Agent name cannot be empty".to_string()));
    assert_eq!(
        UserConfig { agents: vec![agent("a"), agent("b"), agent("a"), agent("")] }.validate(),
        Err("Duplicate agent name: a".to_string())
    );
}

fn tag(name: &str) -> LlmTagDefinition {
    LlmTagDefinition { name: name.to_string(), description: "d".to_string(), examples: vec![] }
}

#[test]
fn tag_config_checks() {
    assert!(LlmTagConfig { tags: vec![tag("security"), tag("testing")] }.validate().is_ok());
    assert_eq!(LlmTagConfig { tags: vec![] }.validate(), Err("LlmTagConfig must contain at least one tag".to_string()));
    assert_eq!(LlmTagConfig { tags: vec![tag("\u{3000}")] }.validate(), Err("Tag name cannot be empty".to_string()));
    assert_eq!(LlmTagConfig { tags: vec![tag("x"), tag("x")] }.validate(), Err("Duplicate tag name: x".to_string()));
}

fn rule(agents: Vec<&str>) -> Rule {
    Rule {
        description: None,
        conditions: RuleConditions::Single(Condition::LlmTag("t".to_string())),
        route_to_subagents: agents.iter().map(|a| a.to_string()).collect(),
    }
}

#[test]
fn rules_config_checks() {
    assert!(RulesConfig { rules: vec![rule(vec!["a"]), rule(vec!["b", "c"])] }.validate().is_ok());
    assert_eq!(RulesConfig { rules: vec![] }.validate(), Err("RulesConfig must contain at least one rule".to_string()));
    assert_eq!(
        RulesConfig { rules: vec![rule(vec!["a"]), rule(vec![])] }.validate(),
        Err("Rule #2 must route to at least one agent".to_string())
    );
    assert_eq!(
        RulesConfig { rules: vec![rule(vec!["a", " "]), rule(vec![])] }.validate(),
        Err("Rule #1 has empty agent name".to_string())
    );
}

#[test]
fn test_model_name_parsing() {
    let model_name = "qwen2.5-coder:7b";
    let model_base = model_name.split(':').next().unwrap_or("");
    assert_eq!(model_base, "qwen2.5-coder");

    let model_name_no_tag = "llama3";
    let model_base_no_tag = model_name_no_tag.split(':').next().unwrap_or("");
    assert_eq!(model_base_no_tag, "llama3");
}
