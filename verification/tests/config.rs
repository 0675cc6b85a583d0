use lino_arguments::{Args, Config, Environment};

fn no_args() -> Args {
    Args { port: None, api_key: None, verbose: false, configuration: None }
}

#[test]
fn defaults_apply_when_nothing_is_given() {
    let config = Config::from_args(no_args(), &Environment::new());
    assert_eq!(config.port, 3000);
    assert_eq!(config.api_key, "");
    assert!(!config.verbose);
    assert_eq!(config.configuration, None);
}

#[test]
fn environment_wins_over_defaults() {
    let mut env = Environment::new();
    env.set("PORT", "8080");
    env.set("API_KEY", "from-env");
    env.set("VERBOSE", "yes");
    let config = Config::from_args(no_args(), &env);
    assert_eq!(config.port, 8080);
    assert_eq!(config.api_key, "from-env");
    assert!(config.verbose);
}

#[test]
fn arguments_win_over_environment() {
    let mut env = Environment::new();
    env.set("PORT", "8080");
    env.set("API_KEY", "from-env");
    env.set("VERBOSE", "false");
    let args = Args {
        port: Some(9000),
        api_key: Some("from-cli".to_string()),
        verbose: true,
        configuration: Some("app.lenv".to_string()),
    };
    let config = Config::from_args(args, &env);
    assert_eq!(config.port, 9000);
    assert_eq!(config.api_key, "from-cli");
    assert!(config.verbose);
    assert_eq!(config.configuration, Some("app.lenv".to_string()));
}

#[test]
fn environment_is_found_under_other_forms_of_the_name() {
    let mut env = Environment::new();
    env.set("port", "8081");
    env.set("apiKey", "camel");
    env.set("verbose", "ON");
    let config = Config::from_args(no_args(), &env);
    assert_eq!(config.port, 8081);
    assert_eq!(config.api_key, "camel");
    assert!(config.verbose);
}

#[test]
fn port_keeps_the_low_sixteen_bits() {
    let mut env = Environment::new();
    env.set("PORT", "70000");
    assert_eq!(Config::from_args(no_args(), &env).port, 4464);
    env.set("PORT", "65536");
    assert_eq!(Config::from_args(no_args(), &env).port, 0);
    env.set("PORT", "-1");
    assert_eq!(Config::from_args(no_args(), &env).port, 65535);
    env.set("PORT", "not a port");
    assert_eq!(Config::from_args(no_args(), &env).port, 3000);
}
