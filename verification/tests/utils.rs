use local_runner::utils::{expand_env_vars, substitute_global_vars};

fn env_of(pairs: &[(&str, &str)]) -> Vec<(String, String)> {
    pairs.iter().map(|(k, v)| (k.to_string(), v.to_string())).collect()
}

#[test]
fn test_expand_env_vars() {
    let env = env_of(&[("MY_VAR1", "hello")]);
    let result = expand_env_vars("${MY_VAR1} world", &env);
    assert_eq!(result, "hello world");
}

#[test]
fn test_expand_env_vars_unset() {
    let env = env_of(&[]);
    let result = expand_env_vars("${MY_VAR2} world", &env);
    assert_eq!(result, " world");
}

#[test]
fn test_expand_env_vars_invalid_no_closing_braket() {
    let result = expand_env_vars("${MY_VAR world", &env_of(&[]));
    assert_eq!(result, "${MY_VAR world");
}

#[test]
fn test_expand_env_vars_invalid_spaces() {
    let result = expand_env_vars("${MY_VAR world}", &env_of(&[]));
    assert_eq!(result, "${MY_VAR world}");
}

#[test]
fn test_expand_env_vars_remove_escape_backslash() {
    let result = expand_env_vars(r"\$MY_VAR world", &env_of(&[]));
    assert_eq!(result, "$MY_VAR world");
}

#[test]
fn test_expand_env_vars_ignore_double_backslash() {
    let env = env_of(&[("MY_VAR3", "hello")]);
    let result = expand_env_vars(r"\\$MY_VAR3 world", &env);
    assert_eq!(result, r"\hello world");
}

#[test]
fn test_subst_vars() {
    let vars = env_of(&[("greeting", "hello")]);

    assert_eq!(
        substitute_global_vars(r"{{ greeting }} world", &vars),
        "hello world"
    );
    assert_eq!(
        substitute_global_vars(r"{{greeting}} world", &vars),
        "hello world"
    );
}

#[test]
fn test_subst_vars_invalid() {
    let vars = env_of(&[("greeting", "hello")]);

    assert_eq!(
        substitute_global_vars(r"{{ greet ing }} world", &vars),
        "{{ greet ing }} world"
    );
    assert_eq!(
        substitute_global_vars(r"{{greeting world", &vars),
        "{{greeting world"
    );
}

#[test]
fn test_subst_vars_non_existant() {
    let vars = env_of(&[]);

    assert_eq!(
        substitute_global_vars(r"{{ greeting }} world", &vars),
        "{{ greeting }} world"
    );
    assert_eq!(
        substitute_global_vars(r"{{greeting}} world", &vars),
        "{{greeting}} world"
    );
}

#[test]
fn test_subst_vars_strings() {
    let vars = env_of(&[("greeting", "hello")]);

    assert_eq!(
        substitute_global_vars(r"{{ '{{' }} greeting {{ '}}' }} world", &vars),
        "{{ greeting }} world"
    );
    assert_eq!(
        substitute_global_vars("{{\"{{\"}} greeting {{\"}}\"}} world", &vars),
        "{{ greeting }} world"
    );
}

#[test]
fn expand_plain_dollar_var_and_several() {
    let env = env_of(&[("A", "1"), ("B", "two")]);
    assert_eq!(expand_env_vars("$A-${B}/$A", &env), "1-two/1");
}

#[test]
fn expand_first_entry_wins() {
    let env = env_of(&[("A", "first"), ("A", "second")]);
    assert_eq!(expand_env_vars("$A", &env), "first");
}

#[test]
fn expand_text_without_references_is_unchanged() {
    assert_eq!(expand_env_vars("no vars here", &env_of(&[("A", "x")])), "no vars here");
    assert_eq!(expand_env_vars("", &env_of(&[])), "");
}

#[test]
fn subst_several_and_unknown() {
    let vars = env_of(&[("a", "x"), ("b", "y")]);
    assert_eq!(substitute_global_vars("{{a}}{{ b }}{{c}}", &vars), "xy{{c}}");
}

#[test]
fn subst_text_without_references_is_unchanged() {
    let vars = env_of(&[("a", "x")]);
    assert_eq!(substitute_global_vars("echo a b", &vars), "echo a b");
}
