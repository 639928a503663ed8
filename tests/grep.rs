use mandelbrot::grep::{search, search_for, Config};

#[test]
fn one_result() {
    let query = "duct";
    let contents = "\
Rust:
safe, fast, productive.
Pick three.";

    assert_eq!(
        vec!["safe, fast, productive."],
        search(query, contents, false)
    );
}

#[test]
fn case_insensitive() {
    let query = "dUct";
    let contents = "\
Rust:
safe, fast, productive.
Pick three.";

    assert_eq!(
        vec!["safe, fast, productive."],
        search(query, contents, true)
    );
}

#[test]
fn case_sensitive_query_keeps_its_case() {
    let contents = "Rust:\nsafe, fast, productive.\nTrust me.";
    assert_eq!(vec!["Rust:"], search("Rust", contents, false));
    assert_eq!(vec!["Trust me."], search("rust", contents, false));
}

#[test]
fn lowered_query_matches_lower_case_lines_only() {
    let contents = "Rust:\nTrust me.";
    assert_eq!(vec!["Trust me."], search("RUST", contents, true));
}

#[test]
fn empty_query_matches_every_line() {
    let contents = "a\n\nb\n";
    assert_eq!(vec!["a", "", "b"], search_for("", contents));
}

#[test]
fn empty_contents_have_no_lines() {
    assert!(search_for("", "").is_empty());
}

#[test]
fn carriage_returns_end_lines() {
    let contents = "one\r\ntwo\r\nthree\r";
    assert_eq!(vec!["one", "two", "three\r"], search_for("", contents));
    assert_eq!(vec!["two"], search_for("tw", contents));
}

#[test]
fn no_line_matches() {
    assert!(search_for("zebra", "one\ntwo").is_empty());
}

#[test]
fn build_needs_query_and_path() {
    let args = vec!["prog".to_string(), "duct".to_string()];
    let r = Config::build(&args, false);
    assert!(matches!(r, Err("Not enough arguments")));
}

#[test]
fn build_takes_query_path_and_case_flag() {
    let args = vec!["prog".to_string(), "duct".to_string(), "poem.txt".to_string()];
    let c = Config::build(&args, true).ok().unwrap();
    assert_eq!("duct", c.query);
    assert_eq!("poem.txt", c.path);
    assert!(c.ignore_case);
    let lines = c.select("Ductile\nproduct");
    assert_eq!(vec!["product"], lines);
}
