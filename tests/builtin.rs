use codecrafters_shell::builtin::{
    builtin_output_route, cd_failure_message, parse_i32, type_report, Builtin, BuiltinAction,
    BuiltinCommand, BuiltinRegistry, OutputRoute, ShellContext,
};
use codecrafters_shell::command::CommandParser;
use codecrafters_shell::error::ShellError;

fn args(items: &[&str]) -> Vec<String> {
    items.iter().map(|s| s.to_string()).collect()
}

fn ctx(home: Option<&str>) -> ShellContext {
    ShellContext {
        working_dir: "/work".to_string(),
        home: home.map(|h| h.to_string()),
    }
}

#[test]
fn registry_knows_every_builtin() {
    let registry = BuiltinRegistry::new();
    let mut names = registry.get_command_names();
    names.sort();
    assert_eq!(names, args(&["cd", "echo", "exit", "history", "pwd", "type"]));
    assert!(registry.is_builtin("echo"));
    assert!(!registry.is_builtin("ls"));
    assert!(!registry.is_builtin("ech"));
    assert_eq!(registry.get_command("type"), Some(Builtin::Type));
    assert_eq!(registry.get_command("cat"), None);
}

#[test]
fn registry_register_adds_once() {
    let mut registry = BuiltinRegistry::default();
    registry.register(Builtin::Echo);
    assert_eq!(registry.get_command_names().len(), 6);
}

#[test]
fn builtin_names() {
    assert_eq!(Builtin::Cd.name(), "cd");
    assert_eq!(Builtin::History.name(), "history");
    assert_eq!(Builtin::from_name("pwd"), Some(Builtin::Pwd));
    assert_eq!(Builtin::from_name("PWD"), None);
}

#[test]
fn echo_joins_arguments() {
    let r = Builtin::Echo.execute(&args(&["a", "b c", "d"]), &ctx(None));
    assert_eq!(r, Ok(BuiltinAction::Print("a b c d".to_string())));
    let empty = Builtin::Echo.execute(&args(&[]), &ctx(None));
    assert_eq!(empty, Ok(BuiltinAction::Print(String::new())));
}

#[test]
fn pwd_prints_working_directory() {
    let r = Builtin::Pwd.execute(&args(&[]), &ctx(None));
    assert_eq!(r, Ok(BuiltinAction::Print("/work".to_string())));
}

#[test]
fn cd_targets() {
    let home = ctx(Some("/home/u"));
    assert_eq!(
        Builtin::Cd.execute(&args(&[]), &home),
        Ok(BuiltinAction::ChangeDirectory("/home/u".to_string()))
    );
    assert_eq!(
        Builtin::Cd.execute(&args(&["~"]), &home),
        Ok(BuiltinAction::ChangeDirectory("/home/u".to_string()))
    );
    assert_eq!(
        Builtin::Cd.execute(&args(&["~/src"]), &home),
        Ok(BuiltinAction::ChangeDirectory("/home/u/src".to_string()))
    );
    assert_eq!(
        Builtin::Cd.execute(&args(&["/tmp"]), &home),
        Ok(BuiltinAction::ChangeDirectory("/tmp".to_string()))
    );
    assert_eq!(
        Builtin::Cd.execute(&args(&["~x"]), &home),
        Ok(BuiltinAction::ChangeDirectory("~x".to_string()))
    );
}

#[test]
fn cd_without_home_fails() {
    let r = Builtin::Cd.execute(&args(&["~/src"]), &ctx(None));
    assert_eq!(r, Err(ShellError::EnvVarNotFound("HOME".to_string())));
    let plain = Builtin::Cd.execute(&args(&["/tmp"]), &ctx(None));
    assert_eq!(plain, Ok(BuiltinAction::ChangeDirectory("/tmp".to_string())));
}

#[test]
fn exit_status_from_first_argument() {
    assert_eq!(
        Builtin::Exit.execute(&args(&["3"]), &ctx(None)),
        Ok(BuiltinAction::Exit(3))
    );
    assert_eq!(
        Builtin::Exit.execute(&args(&[]), &ctx(None)),
        Ok(BuiltinAction::Exit(0))
    );
    assert_eq!(
        Builtin::Exit.execute(&args(&["oops"]), &ctx(None)),
        Ok(BuiltinAction::Exit(0))
    );
}

#[test]
fn parse_i32_like_std() {
    for s in ["0", "42", "-7", "+3", "-0", "2147483647", "-2147483648", "007"].iter() {
        assert_eq!(parse_i32(s), s.parse::<i32>().ok(), "{:?}", s);
    }
    for s in ["", "-", "+", "2147483648", "-2147483649", "1x", " 1", "99999999999999"].iter() {
        assert_eq!(parse_i32(s), None, "{:?}", s);
        assert_eq!(s.parse::<i32>().ok(), None);
    }
}

#[test]
fn type_reports() {
    assert_eq!(
        Builtin::Type.execute(&args(&["echo"]), &ctx(None)),
        Ok(BuiltinAction::Print("echo is a shell builtin".to_string()))
    );
    assert_eq!(
        Builtin::Type.execute(&args(&["ls"]), &ctx(None)),
        Ok(BuiltinAction::Locate("ls".to_string()))
    );
    assert_eq!(
        Builtin::Type.execute(&args(&[]), &ctx(None)),
        Ok(BuiltinAction::Print(String::new()))
    );
    assert_eq!(
        type_report("ls", Some("/bin/ls".to_string())),
        "ls is /bin/ls"
    );
    assert_eq!(type_report("nope", None), "nope: not found");
}

#[test]
fn history_prints_nothing() {
    assert_eq!(
        Builtin::History.execute(&args(&["x"]), &ctx(None)),
        Ok(BuiltinAction::Print(String::new()))
    );
}

#[test]
fn cd_failure_text() {
    assert_eq!(
        cd_failure_message("/nope"),
        "cd: /nope: No such file or directory"
    );
}

#[test]
fn error_messages() {
    assert_eq!(
        ShellError::EnvVarNotFound("HOME".to_string()).message(),
        "Environment variable not found: HOME"
    );
    assert_eq!(
        ShellError::CdError("/x".to_string(), "denied".to_string()).message(),
        "cd: /x: denied"
    );
    assert_eq!(
        ShellError::CommandNotFound("foo".to_string()).message(),
        "Command not found: foo"
    );
    assert_eq!(
        ShellError::IoError("broken pipe".to_string()).message(),
        "IO error: broken pipe"
    );
    assert_eq!(
        ShellError::ExecutionError("x".to_string()).message(),
        "Execution error: x"
    );
    assert_eq!(
        ShellError::EditorError("x".to_string()).message(),
        "Editor error: x"
    );
    assert_eq!(
        ShellError::DirectoryNotFound("d".to_string()).message(),
        "Directory not found: d"
    );
}

#[test]
fn output_route_follows_redirections() {
    assert_eq!(
        builtin_output_route(&CommandParser::parse("echo hi >> out.txt 2> err.txt")),
        OutputRoute::WriteFile("out.txt".to_string(), true)
    );
    assert_eq!(
        builtin_output_route(&CommandParser::parse("echo hi 2> err.txt")),
        OutputRoute::ShowAndCreate("err.txt".to_string())
    );
    assert_eq!(
        builtin_output_route(&CommandParser::parse("echo hi")),
        OutputRoute::Show
    );
}
