use agent_router::rules::{apply_llm_tag_rules, apply_rules};
use agent_router::types::{ClassificationInput, Condition, GitContext, Rule, RuleConditions, RulesConfig};

fn s(x: &str) -> String {
    x.to_string()
}

fn git(branch: &str, changed: Vec<&str>) -> GitContext {
    GitContext {
        branch: s(branch),
        changed_files: changed.iter().map(|f| s(f)).collect(),
        staged_files: vec![],
        tag: None,
    }
}

/// A request whose declared files are the same as the git context's changed files.
fn request(task: &str, intent: &str, git_context: Option<GitContext>) -> ClassificationInput {
    let associated_files = git_context.as_ref().map(|g| g.changed_files.clone());
    ClassificationInput {
        task: s(task),
        intent: s(intent),
        original_prompt: None,
        associated_files,
        git_context,
        agent_config_path: None,
        rules_config_path: None,
        llm_tags_path: None,
    }
}

fn single(c: Condition) -> RuleConditions {
    RuleConditions::Single(c)
}

fn rule(description: &str, conditions: RuleConditions, agents: Vec<&str>) -> Rule {
    Rule {
        description: Some(s(description)),
        conditions,
        route_to_subagents: agents.iter().map(|a| s(a)).collect(),
    }
}

fn create_test_rules_config() -> RulesConfig {
    RulesConfig {
        rules: vec![
            rule(
                "TypeScript files",
                RuleConditions::AnyOf {
                    any_of: vec![
                        single(Condition::FilePattern(s("*.ts"))),
                        single(Condition::FilePattern(s("*.tsx"))),
                    ],
                },
                vec!["language-inspector-typescript"],
            ),
            rule("Security files", single(Condition::FilePattern(s("*auth*"))), vec!["security-auditor"]),
            rule("Commit hook", single(Condition::GitLifecycle(s("commit"))), vec!["code-inspector"]),
            rule("Security tag", single(Condition::LlmTag(s("security-concern"))), vec!["security-auditor"]),
        ],
    }
}

#[test]
fn test_typescript_file_pattern() {
    let rules = create_test_rules_config();
    let input = request("Fix bug", "user_request", Some(git("main", vec!["src/app.ts"])));
    let agents = apply_rules(&input, &rules);
    assert!(agents.contains(&s("language-inspector-typescript")));
}

#[test]
fn test_security_file_pattern() {
    let rules = create_test_rules_config();
    let input = request("Update auth", "user_request", Some(git("main", vec!["src/auth.rs"])));
    let agents = apply_rules(&input, &rules);
    assert!(agents.contains(&s("security-auditor")));
}

#[test]
fn test_git_lifecycle_trigger() {
    let rules = create_test_rules_config();
    let input = request("", "commit", None);
    let agents = apply_rules(&input, &rules);
    assert!(agents.contains(&s("code-inspector")));
}

#[test]
fn test_llm_tag_rules() {
    let rules = create_test_rules_config();
    let llm_tags = vec![s("security-concern")];
    let agents = apply_llm_tag_rules(&llm_tags, &rules);
    assert!(agents.contains(&s("security-auditor")));
}

#[test]
fn test_multiple_matches() {
    let rules = create_test_rules_config();
    let input = request("", "commit", Some(git("main", vec!["src/auth.ts"])));
    let agents = apply_rules(&input, &rules);
    assert!(agents.contains(&s("language-inspector-typescript")));
    assert!(agents.contains(&s("security-auditor")));
    assert!(agents.contains(&s("code-inspector")));
}

#[test]
fn test_file_regex_pattern() {
    let rules = RulesConfig {
        rules: vec![rule("Test files", single(Condition::FileRegex(s(r".*\.test\.ts$"))), vec!["test-engineer"])],
    };
    let input = request("", "user_request", Some(git("main", vec!["src/app.test.ts"])));
    let agents = apply_rules(&input, &rules);
    assert!(agents.contains(&s("test-engineer")));
}

#[test]
fn test_prompt_regex() {
    let rules = RulesConfig {
        rules: vec![rule(
            "Security prompts",
            single(Condition::PromptRegex(s(r"(?i)(security|auth|encrypt)"))),
            vec!["security-auditor"],
        )],
    };
    let input = request("Fix the AUTHENTICATION bug", "user_request", None);
    let agents = apply_rules(&input, &rules);
    assert!(agents.contains(&s("security-auditor")));
}

#[test]
fn test_branch_regex() {
    let rules = RulesConfig {
        rules: vec![rule("Feature branches", single(Condition::BranchRegex(s(r"^feature/.*"))), vec!["code-inspector"])],
    };
    let input = request("", "user_request", Some(git("feature/add-login", vec![])));
    let agents = apply_rules(&input, &rules);
    assert!(agents.contains(&s("code-inspector")));
}

#[test]
fn test_nested_any_of() {
    let rules = RulesConfig {
        rules: vec![rule(
            "Nested conditions",
            RuleConditions::AnyOf {
                any_of: vec![
                    RuleConditions::AnyOf {
                        any_of: vec![
                            single(Condition::FilePattern(s("*.ts"))),
                            single(Condition::FilePattern(s("*.tsx"))),
                        ],
                    },
                    single(Condition::FilePattern(s("*.js"))),
                ],
            },
            vec!["language-inspector"],
        )],
    };
    let input = request("", "user_request", Some(git("main", vec!["app.tsx"])));
    let agents = apply_rules(&input, &rules);
    assert!(agents.contains(&s("language-inspector")));
}

#[test]
fn test_nested_all_of() {
    let rules = RulesConfig {
        rules: vec![rule(
            "Nested all conditions",
            RuleConditions::AllOf {
                all_of: vec![
                    single(Condition::FilePattern(s("*auth*"))),
                    RuleConditions::AllOf {
                        all_of: vec![
                            single(Condition::PromptRegex(s("(?i)fix"))),
                            single(Condition::BranchRegex(s("^hotfix/.*"))),
                        ],
                    },
                ],
            },
            vec!["security-auditor"],
        )],
    };
    let input = request("Fix the bug", "user_request", Some(git("hotfix/auth-bug", vec!["auth.ts"])));
    let agents = apply_rules(&input, &rules);
    assert!(agents.contains(&s("security-auditor")));
}

#[test]
fn test_no_matches() {
    let rules = create_test_rules_config();
    let input = request("Random task", "user_request", Some(git("main", vec!["README.md"])));
    let agents = apply_rules(&input, &rules);
    assert!(agents.is_empty());
}

#[test]
fn test_multiple_rules_same_agent() {
    let rules = RulesConfig {
        rules: vec![
            rule("TypeScript", single(Condition::FilePattern(s("*.ts"))), vec!["code-inspector"]),
            rule("Commit hook", single(Condition::GitLifecycle(s("commit"))), vec!["code-inspector"]),
        ],
    };
    let input = request("", "commit", Some(git("main", vec!["app.ts"])));
    let agents = apply_rules(&input, &rules);
    assert_eq!(agents.iter().filter(|a| *a == "code-inspector").count(), 1);
}

#[test]
fn test_changed_and_staged_files() {
    let rules = RulesConfig {
        rules: vec![rule("Python files", single(Condition::FilePattern(s("*.py"))), vec!["python-inspector"])],
    };
    let input = request("", "user_request", Some(git("main", vec!["main.py"])));
    let agents = apply_rules(&input, &rules);
    assert!(agents.contains(&s("python-inspector")));
}

#[test]
fn test_empty_git_context() {
    let rules = create_test_rules_config();
    let input = request("Do something", "user_request", None);
    let agents = apply_rules(&input, &rules);
    assert!(!agents.contains(&s("language-inspector-typescript")));
    assert!(!agents.contains(&s("security-auditor")));
}

#[test]
fn test_all_of_one_fails() {
    let rules = RulesConfig {
        rules: vec![rule(
            "All conditions must match",
            RuleConditions::AllOf {
                all_of: vec![
                    single(Condition::FilePattern(s("*.ts"))),
                    single(Condition::BranchRegex(s("^feature/.*"))),
                ],
            },
            vec!["ts-inspector"],
        )],
    };
    let input = request("", "user_request", Some(git("main", vec!["app.ts"])));
    let agents = apply_rules(&input, &rules);
    assert!(!agents.contains(&s("ts-inspector")));
}

#[test]
fn test_invalid_regex_does_not_panic() {
    let rules = RulesConfig {
        rules: vec![rule("Invalid regex", single(Condition::FileRegex(s("[invalid("))), vec!["test-agent"])],
    };
    let input = request("", "user_request", Some(git("main", vec!["test.txt"])));
    let agents = apply_rules(&input, &rules);
    assert!(!agents.contains(&s("test-agent")));
}

#[test]
fn test_glob_special_characters() {
    let rules = RulesConfig {
        rules: vec![rule("Config files", single(Condition::FilePattern(s("config/*.json"))), vec!["config-inspector"])],
    };
    let input = request("", "user_request", Some(git("main", vec!["config/agents.json"])));
    let agents = apply_rules(&input, &rules);
    assert!(agents.contains(&s("config-inspector")));
}

#[test]
fn test_rule_contains_llm_tags_all_of() {
    let rule_config = RulesConfig {
        rules: vec![rule(
            "All of with LLM tag",
            RuleConditions::AllOf {
                all_of: vec![
                    single(Condition::LlmTag(s("security"))),
                    single(Condition::LlmTag(s("authentication"))),
                ],
            },
            vec!["security-auditor"],
        )],
    };
    let tags = vec![s("security"), s("authentication")];
    let agents = apply_llm_tag_rules(&tags, &rule_config);
    assert!(agents.contains(&s("security-auditor")));
}

#[test]
fn test_git_lifecycle_no_match() {
    let rules = RulesConfig {
        rules: vec![rule("Commit lifecycle", single(Condition::GitLifecycle(s("commit"))), vec!["commit-agent"])],
    };
    let input = request("", "user_request", None);
    let agents = apply_rules(&input, &rules);
    assert!(!agents.contains(&s("commit-agent")));
}

#[test]
fn test_invalid_glob_pattern() {
    let rules = RulesConfig {
        rules: vec![rule("Invalid glob", single(Condition::FilePattern(s("[invalid"))), vec!["test-agent"])],
    };
    let input = request("", "user_request", Some(git("main", vec!["test.rs"])));
    let agents = apply_rules(&input, &rules);
    assert!(agents.is_empty());
}

#[test]
fn test_invalid_prompt_regex() {
    let rules = RulesConfig {
        rules: vec![rule("Invalid regex", single(Condition::PromptRegex(s("[invalid("))), vec!["test-agent"])],
    };
    let input = request("test prompt", "user_request", None);
    let agents = apply_rules(&input, &rules);
    assert!(agents.is_empty());
}

#[test]
fn test_branch_regex_no_git_context() {
    let rules = RulesConfig {
        rules: vec![rule("Branch regex", single(Condition::BranchRegex(s("^feature/.*"))), vec!["test-agent"])],
    };
    let input = request("", "user_request", None);
    let agents = apply_rules(&input, &rules);
    assert!(agents.is_empty());
}

#[test]
fn changed_files_alone_do_not_drive_file_rules() {
    let rules = create_test_rules_config();
    let mut input = request("Fix bug", "user_request", Some(git("main", vec!["src/auth.ts"])));
    input.associated_files = None;
    assert!(apply_rules(&input, &rules).is_empty());
    input.associated_files = Some(vec![]);
    assert!(apply_rules(&input, &rules).is_empty());
}

#[test]
fn agents_keep_rule_order_without_repeats() {
    let rules = RulesConfig {
        rules: vec![
            rule("a", single(Condition::FilePattern(s("*.rs"))), vec!["b-agent", "a-agent"]),
            rule("b", single(Condition::PromptRegex(s("fix"))), vec!["a-agent", "c-agent", "b-agent"]),
        ],
    };
    let input = request("fix it", "help", Some(git("main", vec!["lib.rs"])));
    assert_eq!(apply_rules(&input, &rules), vec![s("b-agent"), s("a-agent"), s("c-agent")]);
}

#[test]
fn tag_pass_skips_rules_without_tags_and_mixed_all_of() {
    let rules = RulesConfig {
        rules: vec![
            rule("prompt", single(Condition::PromptRegex(s(".*"))), vec!["prompt-agent"]),
            rule(
                "mixed",
                RuleConditions::AllOf {
                    all_of: vec![single(Condition::FilePattern(s("*auth*"))), single(Condition::LlmTag(s("security")))],
                },
                vec!["mixed-agent"],
            ),
            rule("tag", single(Condition::LlmTag(s("security"))), vec!["tag-agent", "tag-agent"]),
        ],
    };
    let tags = vec![s("security")];
    assert_eq!(apply_llm_tag_rules(&tags, &rules), vec![s("tag-agent")]);
    assert!(apply_llm_tag_rules(&[], &rules).is_empty());
}

#[test]
fn prompt_regex_reads_intent_and_original_prompt() {
    let rules = RulesConfig {
        rules: vec![rule("p", single(Condition::PromptRegex(s("^deploy$"))), vec!["ops"])],
    };
    let mut input = request("build", "deploy", None);
    assert_eq!(apply_rules(&input, &rules), vec![s("ops")]);
    input.intent = s("ship");
    assert!(apply_rules(&input, &rules).is_empty());
    input.original_prompt = Some(s("deploy"));
    assert_eq!(apply_rules(&input, &rules), vec![s("ops")]);
}

#[test]
fn empty_rule_set_routes_nowhere() {
    let rules = RulesConfig { rules: vec![] };
    let input = request("anything", "commit", Some(git("main", vec!["a.ts"])));
    assert!(apply_rules(&input, &rules).is_empty());
}
