use nedb_engine::cli::{parse_args, read_tmk, Command, Environment, Options, UsageError};

fn bare() -> Environment {
    Environment { host: None, port: None, token: None, memory: None }
}

fn ask(args: &[&str], env: &Environment) -> Result<Command, UsageError> {
    let args: Vec<String> = args.iter().map(|s| s.to_string()).collect();
    parse_args(&args, env)
}

fn options(args: &[&str]) -> Options {
    match ask(args, &bare()).unwrap() {
        Command::Serve(o) => o,
        _ => panic!("options expected"),
    }
}

fn fault(args: &[&str]) -> String {
    match ask(args, &bare()) {
        Err(e) => e.message(),
        Ok(_) => panic!("an error expected"),
    }
}

#[test]
fn nothing_given() {
    let o = options(&[]);
    assert_eq!(o.host, "127.0.0.1");
    assert_eq!(o.port, 7070);
    assert_eq!(o.token, None);
    assert_eq!(o.data_dir, None);
    assert_eq!(o.directory(), "./nedb-data");
    assert!(!o.memory && !o.dag_v3 && !o.fast_fsync);
}

#[test]
fn values_behind_options() {
    let o = options(&["-d", "/x", "--host=0.0.0.0", "-p", "80", "--token", "t", "-m"]);
    assert_eq!(o.directory(), "/x");
    assert_eq!(o.host, "0.0.0.0");
    assert_eq!(o.port, 80);
    assert_eq!(o.token.as_deref(), Some("t"));
    assert!(o.memory);
    let o = options(&["--dag-v3", "--fast-fsync", "dir"]);
    assert!(o.dag_v3 && o.fast_fsync);
    assert_eq!(o.directory(), "dir");
    assert!(options(&["--dag-fast-sync"]).fast_fsync);
    assert_eq!(options(&["--token="]).token, None);
    assert_eq!(options(&["--data=a=b"]).directory(), "a=b");
    assert_eq!(options(&["-"]).directory(), "-");
}

#[test]
fn help_and_version() {
    assert!(matches!(ask(&["-p", "1", "-h", "--frob"], &bare()), Ok(Command::Help)));
    assert!(matches!(ask(&["--version"], &bare()), Ok(Command::Version)));
    assert!(matches!(ask(&["-V"], &bare()), Ok(Command::Version)));
}

#[test]
fn faulty_command_lines() {
    assert_eq!(fault(&["-p"]), "option '--port' requires a value");
    assert_eq!(fault(&["--port", "65536"]), "invalid --port '65536': expected 0-65535");
    assert_eq!(fault(&["--port=x"]), "invalid --port 'x': expected 0-65535");
    assert_eq!(fault(&["--frob=1"]), "unknown option '--frob'");
    assert_eq!(fault(&["a", "b"]), "unexpected extra argument 'b'");
}

#[test]
fn the_environment_counts_less() {
    let env = Environment {
        host: Some("h".to_string()),
        port: Some("81".to_string()),
        token: Some(String::new()),
        memory: Some("yes".to_string()),
    };
    match ask(&[], &env).unwrap() {
        Command::Serve(o) => {
            assert_eq!((o.host.as_str(), o.port, o.token, o.memory), ("h", 81, None, true));
        }
        _ => panic!("options expected"),
    }
    match ask(&["--host", "i", "-p=82"], &env).unwrap() {
        Command::Serve(o) => assert_eq!((o.host.as_str(), o.port), ("i", 82)),
        _ => panic!("options expected"),
    }
    let odd = Environment { host: None, port: Some("x".into()), token: None, memory: Some("0".into()) };
    match ask(&[], &odd).unwrap() {
        Command::Serve(o) => assert_eq!((o.port, o.memory), (7070, false)),
        _ => panic!("options expected"),
    }
}

#[test]
fn master_keys() {
    let text = "000102030405060708090a0b0c0d0e0f101112131415161718191A1B1C1D1E1F";
    let key = read_tmk(text).unwrap();
    for i in 0..32u8 {
        assert_eq!(key[i as usize], i);
    }
    assert_eq!(read_tmk(""), None);
    assert_eq!(read_tmk("00"), None);
    assert_eq!(read_tmk(&text[1..]), None);
    assert_eq!(read_tmk(&text.replace('0', "g")), None);
}
