use translator::options::{Command, CommandLine, Options, Verbosity};

fn line() -> CommandLine {
    CommandLine {
        create_dict: None,
        merge_dict: None,
        swap_dict: None,
        translate: None,
        verbose: 0,
        output: None,
    }
}

#[test]
fn options_create_dict() {
    let mut l = line();
    l.create_dict = Some(vec!["src.txt".to_string()]);
    let o = Options::new(l);
    assert!(matches!(o.command(), Command::CreateDict { src, dst: None } if src == "src.txt"));
    assert_eq!(o.verbosity(), Verbosity::Warn);
    assert_eq!(o.output(), None);

    let mut l = line();
    l.create_dict = Some(vec!["s".to_string(), "d".to_string()]);
    l.output = Some("out.txt".to_string());
    l.verbose = 2;
    let o = Options::new(l);
    assert!(matches!(o.command(), Command::CreateDict { src, dst: Some(d) } if src == "s" && d == "d"));
    assert_eq!(o.verbosity(), Verbosity::Debug);
    assert_eq!(o.output(), Some("out.txt"));
}

#[test]
fn options_other_commands() {
    let mut l = line();
    l.merge_dict = Some(vec!["a".to_string(), "b".to_string()]);
    l.verbose = 1;
    let o = Options::new(l);
    assert!(matches!(o.command(), Command::MergeDict { dict1, dict2 } if dict1 == "a" && dict2 == "b"));
    assert_eq!(o.verbosity(), Verbosity::Info);

    let mut l = line();
    l.swap_dict = Some(vec!["d".to_string()]);
    l.verbose = 7;
    let o = Options::new(l);
    assert!(matches!(o.command(), Command::SwapDict { dict } if dict == "d"));
    assert_eq!(o.verbosity(), Verbosity::Trace);

    let mut l = line();
    l.translate = Some(vec!["s".to_string(), "d".to_string()]);
    let o = Options::new(l);
    assert!(matches!(o.command(), Command::Translate { src, dict } if src == "s" && dict == "d"));

    let o = Options::new(line());
    assert!(matches!(o.command(), Command::Unspecified));
}
