use static_blog::site::{route_directory, GeneratorOptions, SiteGenerator};

fn args(items: &[&str]) -> Vec<String> {
    items.iter().map(|s| s.to_string()).collect()
}

#[test]
fn options_default_output_directory() {
    assert_eq!(GeneratorOptions::parse(args(&[])).ok().unwrap().output_directory, "dist");
}

#[test]
fn options_output_flag_sets_directory() {
    let options = GeneratorOptions::parse(args(&["--output", "public"])).ok().unwrap();
    assert_eq!(options.output_directory, "public");
    let options = GeneratorOptions::parse(args(&["--output", "a", "--output", "b"])).ok().unwrap();
    assert_eq!(options.output_directory, "b");
}

#[test]
fn options_errors() {
    assert_eq!(
        GeneratorOptions::parse(args(&["--output"])).err().unwrap(),
        "missing value for --output"
    );
    assert_eq!(
        GeneratorOptions::parse(args(&["--verbose"])).err().unwrap(),
        "unsupported argument: --verbose"
    );
    assert_eq!(
        GeneratorOptions::parse(args(&["--output", "x", "extra"])).err().unwrap(),
        "unsupported argument: extra"
    );
}

#[test]
fn generator_joins_directories_onto_the_root() {
    let generator = SiteGenerator::new("/srv/site", String::from("dist"));
    assert_eq!(generator.content_directory, "/srv/site/content");
    assert_eq!(generator.static_directory, "/srv/site/static");
    assert_eq!(generator.output_directory, "/srv/site/dist");
    let generator = SiteGenerator::new("/srv/site", String::from("/tmp/out"));
    assert_eq!(generator.output_directory, "/tmp/out");
}

#[test]
fn route_directory_strips_slashes() {
    assert_eq!(route_directory("/"), "");
    assert_eq!(route_directory("/about/"), "about");
    assert_eq!(route_directory("/blog/first-post/"), "blog/first-post");
    assert_eq!(route_directory("//x//"), "x");
}
