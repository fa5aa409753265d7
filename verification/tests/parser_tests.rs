use vault_ordbok::parser::DirectiveMatch;
use vault_ordbok::parser::ParsedCommand;
use vault_ordbok::parser::VaultCommand;
use vault_ordbok::parser::VaultCommandParser;
use vault_ordbok::parser::extract_arguments;
use vault_ordbok::parser::find_directive;

#[test]
fn test_parser_returns_lookup_command() {
    let data = "KEY_1: {{ lookup ('/data/storage/dev/', 'aws_key') }}";

    let instance = VaultCommandParser::new();
    let commands = instance.parse(data);

    assert_eq!(commands.len(), 1);
}

#[test]
fn test_parser_returns_no_commands_for_empty_input() {
    let data = "";

    let instance = VaultCommandParser::new();
    let commands = instance.parse(data);

    assert_eq!(commands.len(), 0);
}

#[test]
fn test_parser_returns_no_commands_for_input_without_defined_commands() {
    let data = "KEY: VALUE";

    let instance = VaultCommandParser::new();
    let commands = instance.parse(data);

    assert_eq!(commands.len(), 0);
}

#[test]
fn test_parsed_command_returns_error_for_invalid_input() {
    let data = "KEY: {{ lookup ('1', '2', '3') }}";

    let capture = find_directive(data, 0).unwrap();
    let result = ParsedCommand::from(&capture);

    assert_eq!(result.is_err(), true);
    let error = result.unwrap_err();
    assert_eq!(
        error.message(),
        "Parse error: The `{{ lookup (\'1\', \'2\', \'3\') }}` part \
            can\'t be parsed properly. Reason: The `lookup` command requires \
            two arguments for an execution."
    )
}

#[test]
fn test_parsed_command_returns_error_for_invalid_command_name() {
    let data = "KEY: {{ not_a_command ('1', '2', '3') }}";

    let capture = find_directive(data, 0).unwrap();
    let result = ParsedCommand::from(&capture);

    assert_eq!(result.is_err(), true);
    let error = result.unwrap_err();
    assert_eq!(
        error.message(),
        "Parse error: The `{{ not_a_command (\'1\', \'2\', \'3\') }}` \
            part can\'t be parsed properly. Reason: The `not_a_command` \
            command is not supported."
    )
}

#[test]
fn test_vault_command_parser_returns_lookup_command() {
    let command_name = format!("lookup");
    let args = format!("'/data/key', 'test'");

    let result = VaultCommand::parse(&command_name, &args);

    assert_eq!(result.is_ok(), true);
    println!("{:?}", result);
    let (parsed_path, parsed_args) = match result.unwrap() {
        VaultCommand::Lookup { path, key } => (path, key),
    };
    assert_eq!(parsed_path, "/data/key");
    assert_eq!(parsed_args, "test");
}

#[test]
fn test_vault_command_parser_returns_error_for_too_much_arguments() {
    let command_name = format!("lookup");
    let args = format!("'/data/key', 'test', 'value'");

    let result = VaultCommand::parse(&command_name, &args);

    assert_eq!(result.is_err(), true);
    let error = result.unwrap_err();
    assert_eq!(
        error.message(),
        "The `lookup` command requires two arguments for an execution."
    );
}

#[test]
fn test_vault_command_parser_returns_error_for_no_command_arguments() {
    let command_name = format!("lookup");
    let args = format!("");

    let result = VaultCommand::parse(&command_name, &args);

    assert_eq!(result.is_err(), true);
    let error = result.unwrap_err();
    assert_eq!(
        error.message(),
        "The `lookup` command requires two arguments for an execution."
    );
}

#[test]
fn test_vault_command_parser_returns_error_for_unsupported_command() {
    let command_name = format!("not_a_command");
    let args = format!("'/data/key', 'test'");

    let result = VaultCommand::parse(&command_name, &args);

    assert_eq!(result.is_err(), true);
    let error = result.unwrap_err();
    assert_eq!(
        error.message(),
        "The `not_a_command` command is not supported."
    );
}

#[test]
fn test_vault_command_parser_returns_error_for_single_argument() {
    let result = VaultCommand::parse("lookup", "'/data/key'");

    assert_eq!(result.is_err(), true);
    let error = result.unwrap_err();
    assert_eq!(
        error.message(),
        "The `lookup` command requires two arguments for an execution."
    );
}

#[test]
fn test_parser_returns_multiple_distinct_lookup_commands() {
    let data = "A: {{ lookup ('/data/a', 'k1') }}\n\
                B: {{ lookup ('/data/b', 'k2') }}\n\
                C: {{ lookup ('/data/c', 'k3') }}\n";

    let instance = VaultCommandParser::new();
    let commands = instance.parse(data);

    assert_eq!(commands.len(), 3);
}

#[test]
fn test_parser_deduplicates_identical_directives() {
    let data = "A: {{ lookup ('/data/a', 'k1') }}\n\
                B: {{ lookup ('/data/a', 'k1') }}\n\
                C: {{ lookup ('/data/a', 'k1') }}\n";

    let instance = VaultCommandParser::new();
    let commands = instance.parse(data);

    assert_eq!(commands.len(), 1);
}

#[test]
fn test_parser_keeps_escaped_quote_inside_argument() {
    let result = VaultCommand::parse("lookup", "'try parse\\' this', 'key'");

    assert_eq!(result.is_ok(), true);
    let (path, key) = match result.unwrap() {
        VaultCommand::Lookup { path, key } => (path, key),
    };
    assert_eq!(path, "try parse' this");
    assert_eq!(key, "key");
}

#[test]
fn test_extract_arguments_ignores_unquoted_tokens() {
    let args = extract_arguments("bare, 'quoted', 42, \"double\"");

    assert_eq!(args.len(), 2);
    assert_eq!(args[0], "quoted");
    assert_eq!(args[1], "double");
}

#[test]
fn test_find_directive_reports_span_and_tokens() {
    let data = "x {{ lookup ('/p', 'k') }} y";

    let m: DirectiveMatch = find_directive(data, 0).unwrap();

    assert_eq!(m.raw, "{{ lookup ('/p', 'k') }}");
    assert_eq!(m.name, "lookup");
    assert_eq!(m.args, "'/p', 'k'");
    assert_eq!(m.start, 2);
    assert_eq!(m.end, 26);
}

#[test]
fn test_parse_with_failures_reports_unknown_command() {
    let data = "KEY: {{ foo('a','b') }}";

    let instance = VaultCommandParser::new();
    let (commands, fails) = instance.parse_with_failures(data);

    assert_eq!(commands.len(), 0);
    assert_eq!(fails.len(), 1);
    assert_eq!(
        fails[0],
        "Parse error: The `{{ foo('a','b') }}` part can't be parsed properly. \
            Reason: The `foo` command is not supported."
    );
}

#[test]
fn test_parser_accepts_directive_without_inner_spaces() {
    let data = "{{lookup('a','b')}}";

    let instance = VaultCommandParser::new();
    let commands = instance.parse(data);

    assert_eq!(commands.len(), 1);
    match commands[0].command() {
        VaultCommand::Lookup { path, key } => {
            assert_eq!(path, "a");
            assert_eq!(key, "b");
        }
    }
}

#[test]
fn test_parser_reports_arity_failure_for_unquoted_tokens() {
    let data = "KEY: {{ lookup (bare_word) }}";

    let instance = VaultCommandParser::new();
    let (commands, fails) = instance.parse_with_failures(data);

    assert_eq!(commands.len(), 0);
    assert_eq!(fails.len(), 1);
    assert_eq!(
        fails[0],
        "Parse error: The `{{ lookup (bare_word) }}` part can't be parsed properly. \
            Reason: The `lookup` command requires two arguments for an execution."
    );
}

#[test]
fn test_parsed_command_accessors_return_match_and_command() {
    let data = "KEY_1: {{ lookup ('/data/storage/dev/', 'aws_key') }}";

    let instance = VaultCommandParser::new();
    let commands = instance.parse(data);

    assert_eq!(commands.len(), 1);
    assert_eq!(
        commands[0].regex_match(),
        "{{ lookup ('/data/storage/dev/', 'aws_key') }}"
    );
    match commands[0].command() {
        VaultCommand::Lookup { path, key } => {
            assert_eq!(path, "/data/storage/dev/");
            assert_eq!(key, "aws_key");
        }
    }
}
