use taco::{
    command_line, config_file_in, confirmed, invocation, is_yes, join_words, new_script_file_name,
    script_file_name, shell_arguments, Invocation,
};

fn words(items: &[&str]) -> Vec<String> {
    items.iter().map(|s| s.to_string()).collect()
}

#[test]
fn join_words_uses_single_spaces() {
    assert_eq!(join_words(&words(&[])), "");
    assert_eq!(join_words(&words(&["cargo"])), "cargo");
    assert_eq!(join_words(&words(&["cargo", "build", "--release"])), "cargo build --release");
}

#[test]
fn command_line_appends_arguments() {
    assert_eq!(command_line("cargo test", &words(&["--", "--nocapture"])), "cargo test -- --nocapture");
    assert_eq!(command_line("cargo test", &words(&[])), "cargo test");
    assert_eq!(command_line("cargo test", &words(&[""])), "cargo test");
    assert_eq!(command_line("echo", &words(&["a; rm x"])), "echo a; rm x");
}

#[test]
fn shell_flags_depend_on_shell() {
    assert_eq!(shell_arguments("/bin/zsh", "ls".to_string()), words(&["-i", "-c", "ls"]));
    assert_eq!(shell_arguments("/bin/sh", "ls".to_string()), words(&["-c", "ls"]));
    assert_eq!(shell_arguments("/usr/bin/fish", "ls".to_string()), words(&["ls"]));
}

#[test]
fn print_shows_raw_command() {
    assert_eq!(
        invocation(true, "cargo build", &words(&["--release"]), "/bin/sh"),
        Invocation::Print("cargo build".to_string())
    );
    assert_eq!(
        invocation(false, "cargo build", &words(&["--release"]), "/bin/sh"),
        Invocation::Run(words(&["-c", "cargo build --release"]))
    );
}

#[test]
fn config_file_below_home() {
    assert_eq!(config_file_in("/home/u"), "/home/u/.config/taco/taco.json");
    assert_eq!(config_file_in("/home/u/"), "/home/u/.config/taco/taco.json");
    assert_eq!(config_file_in(""), ".config/taco/taco.json");
}

#[test]
fn confirmation_answers() {
    assert!(confirmed("y\n"));
    assert!(confirmed("  Y  "));
    assert!(!confirmed("yes\n"));
    assert!(!confirmed("\n"));
    assert!(!confirmed("n"));
    assert!(is_yes("y"));
    assert!(!is_yes(" y"));
}

#[test]
fn script_file_names() {
    assert_eq!(script_file_name("abc"), "abc.sh");
    let a = new_script_file_name();
    let b = new_script_file_name();
    assert_eq!(a.chars().count(), 39);
    assert!(a.ends_with(".sh"));
    assert_ne!(a, b);
}
