use minigrep::{Config, INSUFFICIENT_ARGUMENTS};

fn arguments(list: &[&str]) -> Vec<String> {
    list.iter().map(|a| a.to_string()).collect()
}

#[test]
fn build_takes_query_and_file_path() {
    let args = arguments(&["minigrep", "duct", "poem.txt"]);
    match Config::build(&args) {
        Ok(config) => {
            assert_eq!("duct", config.query);
            assert_eq!("poem.txt", config.file_path);
        }
        Err(message) => panic!("three arguments were refused: {message}"),
    }
}

#[test]
fn build_ignores_extra_arguments() {
    let args = arguments(&["minigrep", "duct", "poem.txt", "more", "and more"]);
    match Config::build(&args) {
        Ok(config) => {
            assert_eq!("duct", config.query);
            assert_eq!("poem.txt", config.file_path);
        }
        Err(message) => panic!("five arguments were refused: {message}"),
    }
}

#[test]
fn build_ignores_the_program_name() {
    let one = Config::build(&arguments(&["minigrep", "q", "f"]));
    let other = Config::build(&arguments(&["/usr/bin/other", "q", "f", "x"]));
    match (one, other) {
        (Ok(one), Ok(other)) => {
            assert_eq!(one.query, other.query);
            assert_eq!(one.file_path, other.file_path);
        }
        _ => panic!("three or more arguments were refused"),
    }
}

#[test]
fn build_refuses_fewer_than_three_arguments() {
    for list in [&[][..], &["minigrep"][..], &["minigrep", "duct"][..]] {
        match Config::build(&arguments(list)) {
            Ok(_) => panic!("{} arguments were accepted", list.len()),
            Err(message) => assert_eq!("not enough arguments", message),
        }
    }
}

#[test]
fn insufficient_arguments_message() {
    assert_eq!("not enough arguments", INSUFFICIENT_ARGUMENTS);
}

#[test]
fn build_does_not_check_the_arguments_themselves() {
    let args = arguments(&["minigrep", "", "no/such/dir/"]);
    match Config::build(&args) {
        Ok(config) => {
            assert_eq!("", config.query);
            assert_eq!("no/such/dir/", config.file_path);
        }
        Err(message) => panic!("an empty query was refused: {message}"),
    }
}

#[test]
fn build_copies_its_arguments() {
    let mut args = arguments(&["minigrep", "duct", "poem.txt"]);
    let built = Config::build(&args);
    args[1].push_str(" changed");
    args[2].clear();
    match built {
        Ok(config) => {
            assert_eq!("duct", config.query);
            assert_eq!("poem.txt", config.file_path);
        }
        Err(message) => panic!("three arguments were refused: {message}"),
    }
}
