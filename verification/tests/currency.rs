use gnu_units::currency::{
    ascii_upper, build_currency_template, check_rates_response, checked_base, ecb_rate_texts,
    finish_ecb_rates,
    format_rate_definition, parse_template, parse_xml_attr, TemplateData,
};
use gnu_units::namemap::NameMap;
use gnu_units::{CurrencySource, CurrencyUpdateOptions, UpdateError};

fn pairs(v: &[(&str, &str)]) -> Vec<(String, String)> {
    v.iter().map(|(a, b)| (a.to_string(), b.to_string())).collect()
}

fn make_template(code_to_unit: Vec<(&str, &str)>, existing: Vec<(&str, &str)>) -> TemplateData {
    let mut map = NameMap::new();
    for (k, v) in existing {
        map.insert(k.to_string(), v.to_string());
    }
    TemplateData {
        prelude: "# Sample prelude".to_string(),
        code_to_unit: pairs(&code_to_unit),
        existing: map,
    }
}

#[test]
fn parse_template_empty_code_to_unit_when_marker_at_start() {
    let input = "# Currency exchange rates\ndollar 1|1.0 USD\n";

    let result = parse_template(input).ok().unwrap();

    assert!(result.code_to_unit.is_empty());
}

#[test]
fn parse_template_existing_definitions_do_not_bleed_into_code_to_unit() {
    let input = "JPY japanesyen\n# Currency exchange rates\njapanesyen 1|0.0067 dollar\n";

    let result = parse_template(input).ok().unwrap();

    assert_eq!(
        result.code_to_unit,
        vec![("JPY".to_string(), "japanesyen".to_string())]
    );
    assert!(result.has_existing_definition("japanesyen"));
}

#[test]
fn currency_update_options_default_values() {
    let opts = CurrencyUpdateOptions::default();

    assert!(matches!(opts.source, CurrencySource::ExchangerateApi));
    assert_eq!(opts.base, "USD");
    assert!(opts.api_key.is_none());
}

#[test]
fn currency_source_label() {
    assert_eq!(CurrencySource::ExchangerateApi.label(), "exchangerate-api.com");
    assert_eq!(CurrencySource::Floatrates.label(), "floatrates.com");
    assert_eq!(CurrencySource::Ecb.label(), "ecb.europa.eu");
}

#[test]
fn parse_template_code_to_unit() {
    let cases: Vec<(&str, Vec<(&str, &str)>)> = vec![
        (
            "USD dollar\nEUR euro\n# Currency exchange rates\n",
            vec![("USD", "dollar"), ("EUR", "euro")],
        ),
        (
            "# this is a comment\nUSD dollar\n# Currency exchange rates\n",
            vec![("USD", "dollar")],
        ),
        (
            "US dollar\nEURO euro\nUSD usdollar\n# Currency exchange rates\n",
            vec![("USD", "usdollar")],
        ),
        (
            "USD\nEUR euro\n# Currency exchange rates\n",
            vec![("EUR", "euro")],
        ),
    ];
    for (input, expected) in cases {
        let result = parse_template(input).ok().unwrap();

        assert_eq!(result.code_to_unit, pairs(&expected));
    }
}

#[test]
fn parse_template_prelude() {
    let result = parse_template("some preamble text\n# Currency exchange rates\nrate_line\n")
        .ok()
        .unwrap();
    assert_eq!(result.prelude, "some preamble text");

    let result = parse_template("# Currency exchange rates\ndollar 1|1.0 USD\n")
        .ok()
        .unwrap();
    assert_eq!(result.prelude, "");
}

#[test]
fn parse_template_extracts_existing_definitions() {
    let input = "# Currency exchange rates\ndollar 1|1.0 USD\n";

    let result = parse_template(input).ok().unwrap();

    assert_eq!(
        result.existing_definition("dollar"),
        Some("1|1.0 USD".to_string())
    );
}

#[test]
fn parse_template_excludes_from_existing_definitions() {
    let r = parse_template("# Currency exchange rates\n!message some message\ndollar 1|1.0 USD\n")
        .ok()
        .unwrap();
    assert!(!r.has_existing_definition("!message"));

    let r = parse_template("# Currency exchange rates\ndollar\n").ok().unwrap();
    assert!(!r.has_existing_definition("dollar"));
}

#[test]
fn parse_template_error_on_missing_marker() {
    let input = "no marker here\n";

    let result = parse_template(input);

    let msg = result.err().unwrap().message();
    assert!(msg.contains("missing rates section marker"));
}

#[test]
fn update_error_display_invalid_template() {
    let err = UpdateError::InvalidTemplate("test message");

    assert_eq!(err.message(), "invalid currency template: test message");
}

#[test]
fn update_error_display_provider() {
    let err = UpdateError::Provider("some provider error".to_string());

    assert_eq!(err.message(), "currency provider error: some provider error");
}

#[test]
fn format_rate_definition_output() {
    assert_eq!(format_rate_definition("0.5", "dollar"), "1|0.5 dollar");
    assert_eq!(format_rate_definition("1.2345", "euro"), "1|1.2345 euro");
    assert_eq!(format_rate_definition("2", "pound"), "1|2 pound");
}

#[test]
fn render_happy_path() {
    let template = make_template(
        vec![("USD", "dollar"), ("EUR", "euro"), ("GBP", "poundsterling")],
        vec![],
    );
    let rates = pairs(&[("EUR", "0.92"), ("GBP", "0.79")]);

    let result =
        build_currency_template(&template, &rates, "USD", "exchangerate-api.com", "2024-01-15")
            .ok()
            .unwrap();

    let expected = [
        "# Sample prelude\n",
        "\n",
        "# Currency exchange rates \n",
        "\n",
        "!message Currency exchange rates from exchangerate-api.com (USD base) on 2024-01-15\n",
        "\n",
        "dollar                     !\n",
        "euro                       1|0.92 dollar\n",
        "poundsterling              1|0.79 dollar\n"
    ]
    .concat();
    assert_eq!(result, expected);
}

#[test]
fn render_uses_existing_definitions_as_fallback() {
    let template = make_template(
        vec![("USD", "dollar"), ("EUR", "euro"), ("GBP", "poundsterling")],
        vec![("poundsterling", "1|0.8 dollar")],
    );
    let rates = pairs(&[("EUR", "0.92")]);

    let result =
        build_currency_template(&template, &rates, "USD", "exchangerate-api.com", "2024-01-15")
            .ok()
            .unwrap();

    let expected = [
        "# Sample prelude\n",
        "\n",
        "# Currency exchange rates \n",
        "\n",
        "!message Currency exchange rates from exchangerate-api.com (USD base) on 2024-01-15\n",
        "\n",
        "dollar                     !\n",
        "euro                       1|0.92 dollar\n",
        "poundsterling              1|0.8 dollar\n"
    ]
    .concat();
    assert_eq!(result, expected);
}

#[test]
fn render_error_on_unknown_base() {
    let template = make_template(vec![("USD", "dollar"), ("EUR", "euro")], vec![]);
    let rates = Vec::new();

    let result = build_currency_template(&template, &rates, "XXX", "test", "2024-01-15");

    assert!(matches!(result, Err(UpdateError::Provider(_))));
}

#[test]
fn render_preserves_template_order() {
    let template = make_template(
        vec![("USD", "dollar"), ("EUR", "euro"), ("GBP", "poundsterling")],
        vec![],
    );
    let rates = pairs(&[("GBP", "0.79"), ("EUR", "0.92")]);

    let result = build_currency_template(&template, &rates, "USD", "test", "2024-01-15")
        .ok()
        .unwrap();

    let expected = [
        "# Sample prelude\n",
        "\n",
        "# Currency exchange rates \n",
        "\n",
        "!message Currency exchange rates from test (USD base) on 2024-01-15\n",
        "\n",
        "dollar                     !\n",
        "euro                       1|0.92 dollar\n",
        "poundsterling              1|0.79 dollar\n"
    ]
    .concat();
    assert_eq!(result, expected);
    let euro_pos = result.find("euro").unwrap();
    let gbp_pos = result.find("poundsterling").unwrap();
    assert!(euro_pos < gbp_pos);
}

#[test]
fn render_omits_currencies_without_rate_or_existing() {
    let template = make_template(
        vec![("USD", "dollar"), ("EUR", "euro"), ("GBP", "poundsterling")],
        vec![],
    );
    let rates = pairs(&[("EUR", "0.92")]);

    let result = build_currency_template(&template, &rates, "USD", "test", "2024-01-15")
        .ok()
        .unwrap();

    let expected = [
        "# Sample prelude\n",
        "\n",
        "# Currency exchange rates \n",
        "\n",
        "!message Currency exchange rates from test (USD base) on 2024-01-15\n",
        "\n",
        "dollar                     !\n",
        "euro                       1|0.92 dollar\n"
    ]
    .concat();
    assert_eq!(result, expected);
}

#[test]
fn render_later_rate_wins() {
    let template = make_template(vec![("USD", "dollar"), ("EUR", "euro")], vec![]);
    let rates = pairs(&[("EUR", "0.5"), ("EUR", "0.92")]);

    let result = build_currency_template(&template, &rates, "USD", "x", "d").ok().unwrap();

    assert!(result.ends_with("euro                       1|0.92 dollar\n"));
}

#[test]
fn parse_open_er_response_error_on_none_result() {
    let result = check_rates_response(&None, &None, false, "missing rates in response");

    assert!(matches!(result, Err(UpdateError::Provider(_))));
    assert_eq!(
        result.err().unwrap().message(),
        "currency provider error: unknown exchangerate-api error"
    );
}

#[test]
fn parse_open_er_response_error() {
    let msg = check_rates_response(
        &Some("error".to_string()),
        &Some("invalid-key".to_string()),
        false,
        "missing rates in response",
    )
    .err()
    .unwrap()
    .message();
    assert!(msg.contains("invalid-key"));

    let msg = check_rates_response(
        &Some("success".to_string()),
        &None,
        false,
        "missing rates in response",
    )
    .err()
    .unwrap()
    .message();
    assert!(msg.contains("missing rates"));
}

#[test]
fn parse_open_er_response_success() {
    let r = check_rates_response(&Some("success".to_string()), &None, true, "missing rates");

    assert!(r.is_ok());
}

#[test]
fn parse_keyed_er_response_error() {
    let msg = check_rates_response(
        &Some("error".to_string()),
        &Some("quota-reached".to_string()),
        false,
        "missing conversion_rates in response",
    )
    .err()
    .unwrap()
    .message();
    assert!(msg.contains("quota-reached"));

    let msg = check_rates_response(
        &Some("success".to_string()),
        &None,
        false,
        "missing conversion_rates in response",
    )
    .err()
    .unwrap()
    .message();
    assert!(msg.contains("missing conversion_rates"));
}

#[test]
fn ascii_upper_cases_codes() {
    assert_eq!(ascii_upper("eur"), "EUR");
    assert_eq!(ascii_upper("uSd-ä"), "USD-ä");
}

#[test]
fn checked_base_uses_euro_for_ecb() {
    assert_eq!(checked_base(CurrencySource::Floatrates, "usd"), "USD");
    assert_eq!(checked_base(CurrencySource::ExchangerateApi, "eUr"), "EUR");
    assert_eq!(checked_base(CurrencySource::Ecb, "usd"), "EUR");
    assert_eq!(checked_base(CurrencySource::Ecb, "eur"), "EUR");
}

#[test]
fn ecb_rates_end_with_euro_at_one() {
    let r = finish_ecb_rates(pairs(&[("USD", "1.0946")])).ok().unwrap();
    assert_eq!(r, pairs(&[("USD", "1.0946"), ("EUR", "1")]));

    let err = finish_ecb_rates(Vec::new()).err().unwrap();
    assert_eq!(err.message(), "currency provider error: ECB feed returned no rates");
}

#[test]
fn parse_xml_attr_reads_both_quotes() {
    let line = "<Cube currency='USD' rate=\"1.0812\"/>";

    assert_eq!(parse_xml_attr(line, "currency"), Some("USD".to_string()));
    assert_eq!(parse_xml_attr(line, "rate"), Some("1.0812".to_string()));
    assert_eq!(parse_xml_attr(line, "time"), None);
}

#[test]
fn ecb_feed_rates_in_order() {
    let feed = "<gesmes:Envelope>\n  <Cube time='2024-01-15'>\n    <Cube currency='USD' rate='1.0946'/>\n    <Cube currency='JPY' rate='160.89'/>\n    <Cube currency='XXX'/>\n  </Cube>\n";

    let rates = ecb_rate_texts(feed);

    assert_eq!(rates, pairs(&[("USD", "1.0946"), ("JPY", "160.89")]));
}
