use lino_arguments::{
    to_camel_case, to_kebab_case, to_pascal_case, to_snake_case, to_upper_case,
};

#[test]
fn test_to_upper_case() {
    assert_eq!(to_upper_case("apiKey"), "API_KEY");
    assert_eq!(to_upper_case("myVariableName"), "MY_VARIABLE_NAME");
    assert_eq!(to_upper_case("api-key"), "API_KEY");
    assert_eq!(to_upper_case("API_KEY"), "API_KEY");
}

#[test]
fn test_to_camel_case() {
    assert_eq!(to_camel_case("api-key"), "apiKey");
    assert_eq!(to_camel_case("API_KEY"), "apiKey");
    assert_eq!(to_camel_case("my_variable_name"), "myVariableName");
}

#[test]
fn test_to_kebab_case() {
    assert_eq!(to_kebab_case("apiKey"), "api-key");
    assert_eq!(to_kebab_case("API_KEY"), "api-key");
    assert_eq!(to_kebab_case("MyVariableName"), "my-variable-name");
}

#[test]
fn test_to_snake_case() {
    assert_eq!(to_snake_case("apiKey"), "api_key");
    assert_eq!(to_snake_case("api-key"), "api_key");
    assert_eq!(to_snake_case("API_KEY"), "api_key");
}

#[test]
fn test_to_pascal_case() {
    assert_eq!(to_pascal_case("api-key"), "ApiKey");
    assert_eq!(to_pascal_case("api_key"), "ApiKey");
    assert_eq!(to_pascal_case("my-variable-name"), "MyVariableName");
}

#[test]
fn test_to_upper_case_from_camel_case() {
    assert_eq!(to_upper_case("apiKey"), "API_KEY");
    assert_eq!(to_upper_case("myVariableName"), "MY_VARIABLE_NAME");
}

#[test]
fn test_to_upper_case_from_kebab_case() {
    assert_eq!(to_upper_case("api-key"), "API_KEY");
    assert_eq!(to_upper_case("my-variable-name"), "MY_VARIABLE_NAME");
}

#[test]
fn test_to_upper_case_from_snake_case() {
    assert_eq!(to_upper_case("api_key"), "API_KEY");
    assert_eq!(to_upper_case("my_variable_name"), "MY_VARIABLE_NAME");
}

#[test]
fn test_to_upper_case_from_pascal_case() {
    assert_eq!(to_upper_case("ApiKey"), "API_KEY");
    assert_eq!(to_upper_case("MyVariableName"), "MY_VARIABLE_NAME");
}

#[test]
fn test_to_camel_case_from_kebab_case() {
    assert_eq!(to_camel_case("api-key"), "apiKey");
    assert_eq!(to_camel_case("my-variable-name"), "myVariableName");
}

#[test]
fn test_to_camel_case_from_upper_case() {
    assert_eq!(to_camel_case("API_KEY"), "apiKey");
    assert_eq!(to_camel_case("MY_VARIABLE_NAME"), "myVariableName");
}

#[test]
fn test_to_kebab_case_from_camel_case() {
    assert_eq!(to_kebab_case("apiKey"), "api-key");
    assert_eq!(to_kebab_case("myVariableName"), "my-variable-name");
}

#[test]
fn test_to_kebab_case_from_upper_case() {
    assert_eq!(to_kebab_case("API_KEY"), "api-key");
    assert_eq!(to_kebab_case("MY_VARIABLE_NAME"), "my-variable-name");
}

#[test]
fn test_to_snake_case_from_camel_case() {
    assert_eq!(to_snake_case("apiKey"), "api_key");
    assert_eq!(to_snake_case("myVariableName"), "my_variable_name");
}

#[test]
fn test_to_snake_case_from_kebab_case() {
    assert_eq!(to_snake_case("api-key"), "api_key");
    assert_eq!(to_snake_case("my-variable-name"), "my_variable_name");
}

#[test]
fn test_to_pascal_case_from_kebab_case() {
    assert_eq!(to_pascal_case("api-key"), "ApiKey");
    assert_eq!(to_pascal_case("my-variable-name"), "MyVariableName");
}

#[test]
fn test_to_pascal_case_from_snake_case() {
    assert_eq!(to_pascal_case("api_key"), "ApiKey");
    assert_eq!(to_pascal_case("my_variable_name"), "MyVariableName");
}

#[test]
fn empty_key_stays_empty() {
    assert_eq!(to_upper_case(""), "");
    assert_eq!(to_camel_case(""), "");
    assert_eq!(to_kebab_case(""), "");
    assert_eq!(to_snake_case(""), "");
    assert_eq!(to_pascal_case(""), "");
}

#[test]
fn upper_case_of_shouting_key_only_swaps_hyphens() {
    assert_eq!(to_upper_case("API-KEY"), "API_KEY");
    assert_eq!(to_upper_case("__API--KEY__"), "__API__KEY__");
    assert_eq!(to_upper_case("ABC"), "ABC");
    assert_eq!(to_upper_case("-"), "_");
}

#[test]
fn upper_case_cleans_up_separators() {
    assert_eq!(to_upper_case("--api--key"), "API_KEY");
    assert_eq!(to_upper_case("api key"), "API_KEY");
    assert_eq!(to_upper_case("_apiKey"), "API_KEY");
    assert_eq!(to_upper_case("api__key_"), "API_KEY_");
    assert_eq!(to_upper_case("api-Key"), "API_KEY");
    assert_eq!(to_upper_case("a"), "A");
    assert_eq!(to_upper_case("version2"), "VERSION2");
    assert_eq!(to_upper_case("HTTPServer1"), "H_T_T_P_SERVER1");
}

#[test]
fn kebab_case_fast_path_needs_an_underscore() {
    assert_eq!(to_kebab_case("API_KEY"), "api-key");
    assert_eq!(to_kebab_case("__A__B"), "--a--b");
    assert_eq!(to_kebab_case("API"), "a-p-i");
    assert_eq!(to_kebab_case("_"), "-");
}

#[test]
fn kebab_case_cleans_up_separators() {
    assert_eq!(to_kebab_case("api_key"), "api-key");
    assert_eq!(to_kebab_case("api key"), "api-key");
    assert_eq!(to_kebab_case("__api__key"), "api-key");
    assert_eq!(to_kebab_case("-apiKey"), "api-key");
    assert_eq!(to_kebab_case("api--key-"), "api-key-");
    assert_eq!(to_kebab_case("ApiKey"), "api-key");
}

#[test]
fn snake_case_fast_path_needs_an_underscore() {
    assert_eq!(to_snake_case("API_KEY"), "api_key");
    assert_eq!(to_snake_case("__A__B"), "__a__b");
    assert_eq!(to_snake_case("API"), "a_p_i");
    assert_eq!(to_snake_case("_"), "_");
}

#[test]
fn snake_case_cleans_up_separators() {
    assert_eq!(to_snake_case("api key"), "api_key");
    assert_eq!(to_snake_case("--api--key"), "api_key");
    assert_eq!(to_snake_case("_apiKey"), "api_key");
    assert_eq!(to_snake_case("api__key_"), "api_key_");
    assert_eq!(to_snake_case("ApiKey"), "api_key");
    assert_eq!(to_snake_case("api2Key"), "api2_key");
}

#[test]
fn camel_case_drops_separators_and_lowers_first() {
    assert_eq!(to_camel_case("api key"), "apiKey");
    assert_eq!(to_camel_case("_api_key"), "apiKey");
    assert_eq!(to_camel_case("--api--key--"), "apiKey");
    assert_eq!(to_camel_case("apiKey"), "apikey");
    assert_eq!(to_camel_case("ApiKey"), "apikey");
    assert_eq!(to_camel_case("api_2key"), "api2key");
    assert_eq!(to_camel_case("___"), "");
    assert_eq!(to_camel_case("-A"), "a");
}

#[test]
fn pascal_case_drops_separators_and_raises_first() {
    assert_eq!(to_pascal_case("api key"), "ApiKey");
    assert_eq!(to_pascal_case("API_KEY"), "ApiKey");
    assert_eq!(to_pascal_case("_api_key_"), "ApiKey");
    assert_eq!(to_pascal_case("apiKey"), "Apikey");
    assert_eq!(to_pascal_case("a"), "A");
    assert_eq!(to_pascal_case("2fast"), "2fast");
    assert_eq!(to_pascal_case("---"), "");
}

#[test]
fn letters_outside_ascii() {
    assert_eq!(to_upper_case("caféAuLait"), "CAFé_AU_LAIT");
    assert_eq!(to_upper_case("ÉCOLE-NORMALE"), "ÉCOLE_NORMALE");
    assert_eq!(to_snake_case("ÉCOLE_NORMALE"), "école_normale");
    assert_eq!(to_kebab_case("ÉCOLE_NORMALE"), "école-normale");
    assert_eq!(to_snake_case("écoleNormale"), "école_normale");
    assert_eq!(to_snake_case("grandeÉcole"), "grande_École");
    assert_eq!(to_camel_case("ÉCOLE_NORMALE"), "écoleNormale");
    assert_eq!(to_pascal_case("école-normale"), "écoleNormale");
    assert_eq!(to_camel_case("İstanbul"), "i\u{307}stanbul");
}

#[test]
fn camel_case_lowers_a_first_letter_without_lower_case_form() {
    assert_eq!(to_camel_case("\u{1d400}bc"), "\u{1d400}bc");
    assert_eq!(to_camel_case("_\u{1d400}bc"), "\u{1d400}bc");
}

#[test]
fn converting_twice_changes_nothing_more() {
    for key in ["apiKey", "api-key", "api_key", "API_KEY", "ApiKey", "a", "", "my-variable-name"] {
        let upper = to_upper_case(key);
        assert_eq!(to_upper_case(&upper), upper);
        let kebab = to_kebab_case(key);
        assert_eq!(to_kebab_case(&kebab), kebab);
        let snake = to_snake_case(key);
        assert_eq!(to_snake_case(&snake), snake);
    }
    for key in ["apikey", "Apikey", "API", "a", "", "-api", "api2"] {
        let camel = to_camel_case(key);
        assert_eq!(to_camel_case(&camel), camel);
        let pascal = to_pascal_case(key);
        assert_eq!(to_pascal_case(&pascal), pascal);
    }
}

#[test]
fn converting_twice_can_change_more() {
    assert_eq!(to_upper_case("ab1"), "AB1");
    assert_eq!(to_upper_case("AB1"), "A_B1");
    assert_eq!(to_camel_case("api-key"), "apiKey");
    assert_eq!(to_camel_case("apiKey"), "apikey");
    assert_eq!(to_pascal_case("api-key"), "ApiKey");
    assert_eq!(to_pascal_case("ApiKey"), "Apikey");
    assert_eq!(to_snake_case("_A"), "_a");
    assert_eq!(to_snake_case("_a"), "a");
    assert_eq!(to_kebab_case("_A"), "-a");
    assert_eq!(to_kebab_case("-a"), "a");
}

#[test]
fn round_trip_through_another_convention() {
    assert_eq!(to_camel_case(&to_upper_case("apiKey")), "apiKey");
    assert_eq!(to_camel_case(&to_kebab_case("apiKey")), "apiKey");
    assert_eq!(to_camel_case(&to_snake_case("apiKey")), "apiKey");
    assert_eq!(to_upper_case(&to_camel_case("API_KEY")), "API_KEY");
    assert_eq!(to_upper_case(&to_pascal_case("API_KEY")), "API_KEY");
    assert_eq!(to_upper_case(&to_kebab_case("API_KEY")), "API_KEY");
    assert_eq!(to_kebab_case(&to_pascal_case("my-variable-name")), "my-variable-name");
    assert_eq!(to_snake_case(&to_upper_case("my_variable_name")), "my_variable_name");
    assert_eq!(to_pascal_case(&to_snake_case("MyVariableName")), "MyVariableName");
    assert_eq!(to_pascal_case(&to_upper_case("MyVariableName")), "MyVariableName");
}

#[test]
fn round_trip_that_loses_the_words() {
    assert_eq!(to_camel_case(&to_pascal_case("apiKey")), "apikey");
    assert_eq!(to_upper_case(&to_snake_case("API")), "A_P_I");
    assert_eq!(to_pascal_case(&to_upper_case("AB")), "Ab");
}
