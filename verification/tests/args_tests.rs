use senile::args::{CallArgs, ClapArgumentLoader, Command, ConfigError, Privilege};

#[test]
fn format_splits_on_its_single_comma() {
    let (start, end) = ClapArgumentLoader::parse_format("// TODO!(,):").unwrap();
    assert_eq!(start, "// TODO!(");
    assert_eq!(end, "):");
}

#[test]
fn format_without_comma_is_invalid() {
    assert_eq!(ClapArgumentLoader::parse_format("no separator").unwrap_err(),
        ConfigError::InvalidFormat);
}

#[test]
fn format_with_two_commas_is_invalid() {
    assert_eq!(ClapArgumentLoader::parse_format("a,b,c").unwrap_err(),
        ConfigError::InvalidFormat);
}

#[test]
fn build_assembles_the_call() {
    let formats = vec![String::from("// TODO!(,):"), String::from("#(,)#")];
    let args = ClapArgumentLoader::build(
        true,
        String::from("./"),
        String::from(".*"),
        4,
        &formats,
    )
        .unwrap();
    assert!(matches!(args.privilege, Privilege::Experimental));
    let Command::Collect { path, filter, workers, literals } = args.command;
    assert_eq!(path, "./");
    assert_eq!(filter, ".*");
    assert_eq!(workers, 4);
    assert_eq!(literals.len(), 2);
    assert_eq!(literals[0].0, "// TODO!(");
    assert_eq!(literals[0].1, "):");
    assert_eq!(literals[1].0, "#(");
    assert_eq!(literals[1].1, ")#");
}

#[test]
fn build_rejects_zero_workers() {
    let formats = vec![String::from("a,b")];
    let err = ClapArgumentLoader::build(
        false,
        String::from("./"),
        String::from(".*"),
        0,
        &formats,
    )
        .unwrap_err();
    assert_eq!(err, ConfigError::ZeroWorkers);
}

#[test]
fn validate_requires_a_worker() {
    let ok = CallArgs {
        privilege: Privilege::Normal,
        command: Command::Collect {
            path: String::from("."),
            filter: String::from(".*"),
            workers: 1,
            literals: Vec::new(),
        },
    };
    assert!(ok.validate().is_ok());
    let bad = CallArgs {
        privilege: Privilege::Normal,
        command: Command::Collect {
            path: String::from("."),
            filter: String::from(".*"),
            workers: 0,
            literals: Vec::new(),
        },
    };
    assert_eq!(bad.validate().unwrap_err(), ConfigError::ZeroWorkers);
}
