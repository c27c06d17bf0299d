use agent_router::tagging::{build_tagging_prompt, effective_model_name, is_thinking_family, join_strings, model_present, supports_thinking, parse_percentage, parse_tag_list, pick_mentioned, sanitize_input};
use agent_router::types::{ClassificationInput, GitContext, LlmTagConfig, LlmTagDefinition, ModelSource};

fn create_test_tag_config() -> LlmTagConfig {
    LlmTagConfig {
        tags: vec![
            LlmTagDefinition {
                name: "authentication".to_string(),
                description: "User authentication and authorization".to_string(),
                examples: vec!["login".to_string(), "password".to_string()],
            },
            LlmTagDefinition {
                name: "database".to_string(),
                description: "Database operations".to_string(),
                examples: vec!["SQL".to_string(), "migrations".to_string()],
            },
            LlmTagDefinition {
                name: "api".to_string(),
                description: "API endpoints".to_string(),
                examples: vec!["REST".to_string(), "GraphQL".to_string()],
            },
        ],
    }
}

#[test]
fn test_sanitize_input_basic() {
    assert_eq!(sanitize_input("  hello   world  "), "hello   world");
}

#[test]
fn test_sanitize_input_multiline() {
    assert_eq!(sanitize_input("line 1\n  line 2  \n\n  line 3  "), "line 1 line 2 line 3");
}

#[test]
fn test_sanitize_input_empty_lines() {
    assert_eq!(sanitize_input("line 1\n\n\nline 2"), "line 1 line 2");
}

#[test]
fn test_sanitize_input_tabs() {
    assert_eq!(sanitize_input("\t\thello\t\tworld\t\t"), "hello\t\tworld");
}

#[test]
fn sanitize_handles_carriage_returns_and_blank_text() {
    assert_eq!(sanitize_input("a\r\n b \r\n\r\n"), "a b");
    assert_eq!(sanitize_input(""), "");
    assert_eq!(sanitize_input(" \n\t\n "), "");
    assert_eq!(sanitize_input("  Fix   bug  \n\n  with  whitespace  "), "Fix   bug with  whitespace");
}

#[test]
fn test_parse_tag_list_valid_tags() {
    let result = parse_tag_list("authentication\ndatabase\napi", &create_test_tag_config());
    assert_eq!(result.len(), 3);
    assert!(result.contains(&"authentication".to_string()));
    assert!(result.contains(&"database".to_string()));
    assert!(result.contains(&"api".to_string()));
}

#[test]
fn test_parse_tag_list_filters_invalid_tags() {
    let result = parse_tag_list("authentication\ninvalid-tag\ndatabase\nanother-invalid", &create_test_tag_config());
    assert_eq!(result.len(), 2);
    assert!(result.contains(&"authentication".to_string()));
    assert!(result.contains(&"database".to_string()));
    assert!(!result.contains(&"invalid-tag".to_string()));
}

#[test]
fn test_parse_tag_list_filters_explanations() {
    let response = "authentication\nExplanation: This is about auth\ndatabase\nNote: database operations";
    let result = parse_tag_list(response, &create_test_tag_config());
    assert_eq!(result.len(), 2);
    assert!(result.contains(&"authentication".to_string()));
    assert!(result.contains(&"database".to_string()));
}

#[test]
fn test_parse_tag_list_handles_whitespace() {
    let result = parse_tag_list("  authentication  \n  database  \n\n  api  ", &create_test_tag_config());
    assert_eq!(result.len(), 3);
    assert!(result.contains(&"authentication".to_string()));
    assert!(result.contains(&"database".to_string()));
    assert!(result.contains(&"api".to_string()));
}

#[test]
fn test_parse_tag_list_empty_response() {
    assert_eq!(parse_tag_list("", &create_test_tag_config()).len(), 0);
}

#[test]
fn tag_numbers_pick_tags_once_in_order() {
    let config = create_test_tag_config();
    assert_eq!(parse_tag_list("3, 1, 3", &config), vec!["api".to_string(), "authentication".to_string()]);
    assert_eq!(parse_tag_list("2", &config), vec!["database".to_string()]);
    assert_eq!(parse_tag_list("02,4,99999999999999999999999999", &config), vec!["database".to_string()]);
    assert!(parse_tag_list("0", &config).is_empty());
    assert_eq!(parse_tag_list("0 but API and Database", &config), vec!["database".to_string(), "api".to_string()]);
}

#[test]
fn test_parse_percentage_basic() {
    assert_eq!(parse_percentage("45%"), Some(45));
    assert_eq!(parse_percentage("100%"), Some(100));
    assert_eq!(parse_percentage("0%"), Some(0));
}

#[test]
fn test_parse_percentage_with_text() {
    assert_eq!(parse_percentage("pulling abc123... 67%"), Some(67));
    assert_eq!(parse_percentage("downloading model 89%"), Some(89));
}

#[test]
fn test_parse_percentage_no_percent() {
    assert_eq!(parse_percentage("pulling manifest"), None);
    assert_eq!(parse_percentage("verifying"), None);
    assert_eq!(parse_percentage(""), None);
}

#[test]
fn test_parse_percentage_caps_at_100() {
    assert_eq!(parse_percentage("150%"), Some(100));
}

#[test]
fn percentage_words_follow_u8_parsing() {
    assert_eq!(parse_percentage("x% 300% +7%% 9%"), Some(7));
    assert_eq!(parse_percentage("a%b 12%"), Some(12));
    assert_eq!(parse_percentage("% +% -3%"), None);
    assert_eq!(parse_percentage("\t 5%\n"), Some(5));
}

fn request(task: &str, intent: &str, files: Option<Vec<&str>>, git: Option<GitContext>) -> ClassificationInput {
    ClassificationInput {
        task: task.to_string(),
        intent: intent.to_string(),
        original_prompt: None,
        associated_files: files.map(|f| f.iter().map(|x| x.to_string()).collect()),
        git_context: git,
        agent_config_path: None,
        rules_config_path: None,
        llm_tags_path: None,
    }
}

#[test]
fn test_build_tagging_prompt_basic() {
    let git = GitContext { branch: "main".to_string(), changed_files: vec![], staged_files: vec![], tag: None };
    let input = request("Fix login bug", "review code before commit", Some(vec!["src/auth.rs"]), Some(git));
    let prompt = build_tagging_prompt(&input, &create_test_tag_config());
    assert!(prompt.contains("Fix login bug"));
    assert!(prompt.contains("review code before commit"));
    assert!(prompt.contains("src/auth.rs"));
    assert!(prompt.contains("authentication"));
    assert!(prompt.contains("database"));
    assert!(prompt.contains("api"));
}

#[test]
fn test_build_tagging_prompt_no_git_context() {
    let input = request("Add feature", "help with implementation", None, None);
    let prompt = build_tagging_prompt(&input, &create_test_tag_config());
    assert!(prompt.contains("Add feature"));
    assert!(prompt.contains("help with implementation"));
    assert!(prompt.contains("none"));
}

#[test]
fn test_build_tagging_prompt_sanitizes_input() {
    let input = request(
        "  Fix   bug  \n\n  with  whitespace  ",
        "  review   code  ",
        Some(vec!["  src/file.rs  \n  "]),
        None,
    );
    let prompt = build_tagging_prompt(&input, &create_test_tag_config());
    assert!(prompt.contains("Fix   bug with  whitespace"));
    assert!(prompt.contains("review   code"));
    assert!(prompt.contains("src/file.rs"));
}

#[test]
fn tagging_prompt_layout() {
    let config = LlmTagConfig {
        tags: vec![
            LlmTagDefinition { name: "a".to_string(), description: "A things".to_string(), examples: vec!["x".to_string(), "y".to_string()] },
            LlmTagDefinition { name: "b".to_string(), description: "B things".to_string(), examples: vec![] },
        ],
    };
    let mut input = request("T", "I", None, Some(GitContext {
        branch: "main".to_string(),
        changed_files: vec!["c1".to_string(), " c2 ".to_string()],
        staged_files: vec![],
        tag: None,
    }));
    input.original_prompt = Some("O".to_string());
    let expected = "You are a code task classifier. Be CONSERVATIVE - only select tags that CLEARLY match.\n\n\
Task: \"T\"\nIntent: \"I\"\nOriginal request: \"O\"\nChanged files: c1, c2\n\n\
Which tags apply? Choose from:\n1. a - A things\n   Examples: x, y\n2. b - B things\n\n\
IMPORTANT:\n- Only select tags if there is CLEAR evidence in the task/intent. If the task is vague or generic (like \"help me\" or \"do something\"), reply \"0\"\n\
- Do NOT guess or assume. When in doubt, reply \"0\"\n\nReply with the number(s) only, comma-separated. Reply \"0\" if none apply.";
    assert_eq!(build_tagging_prompt(&input, &config), expected);
}

#[test]
fn mentioned_names_follow_given_lowercase_forms() {
    let names = vec!["Auth".to_string(), "DB".to_string(), "Auth".to_string()];
    let lowered = vec!["auth".to_string(), "db".to_string(), "auth".to_string()];
    assert_eq!(pick_mentioned("uses auth and db", &names, &lowered), vec!["Auth".to_string(), "DB".to_string()]);
    assert!(pick_mentioned("nothing", &names, &lowered).is_empty());
    assert_eq!(join_strings(&vec!["a".to_string(), "b".to_string()], ", "), "a, b");
}

#[test]
fn model_naming_and_thinking_support() {
    assert_eq!(effective_model_name("ggml-org/SmolLM3-3B-GGUF", ModelSource::HuggingFace), "hf.co/ggml-org/SmolLM3-3B-GGUF");
    assert_eq!(effective_model_name("llama3:8b", ModelSource::Ollama), "llama3:8b");
    assert!(supports_thinking("DeepSeek-R1:7b"));
    assert!(supports_thinking("qwen2.5-coder:7b"));
    assert!(!supports_thinking("llama3"));
    assert!(!is_thinking_family("QWQ"));
    assert!(is_thinking_family("qwq"));
}

#[test]
fn listed_model_matches_name_or_base() {
    let listed = vec!["qwen2.5-coder:latest".to_string(), "llama3:8b".to_string()];
    assert!(model_present("qwen2.5-coder:7b", &listed));
    assert!(model_present("llama3:8b", &listed));
    assert!(!model_present("mistral:7b", &listed));
    assert!(model_present("hf.co/org/model", &vec!["hf.co/org/model:Q8_0".to_string()]));
    assert!(!model_present("x", &vec![]));
}
