use synonym_search::messages::ResultBuilderMessage;
use synonym_search::providers::base::{
    is_well_formed, messages_for_answer, parse_response, query_url, synonym_messages, Provider,
};
use synonym_search::providers::merriam_webster;
use synonym_search::providers::thesaurus::{self, SingleSynonym};
use synonym_search::providers::thesaurus2;

const MERRIAM_EMPTY: &str = "<html><body><div class=\"missing-query\">The word you've entered isn't in the thesaurus.</div></body></html>";
const THESAURUS_EMPTY: &str = "<html><body><h1>car</h1><p>No results found for that word.</p></body></html>";
const THESAURUS2_EMPTY: &str = "<html><body><h1>0 results for <strong>qwzx</strong></h1></body></html>";

const SINGLE_SYNONYM: &str = "<div class=\"single-synonym\"><div class=\"synonym-link-wrapper\"><a class=\"synonym-link\" href=\"https://thesaurus.yourdictionary.com/motor-car\">motor-car</a></div><div class=\"synonym-extra\">1</div></div>";

const THESAURUS_PAGE: &str = "<html><div class=\"single-synonym-wrapper\"><div class=\"single-synonym\"><div class=\"synonym-link-wrapper\"><a class=\"synonym-link\" href=\"/auto\">auto</a></div></div><div class=\"single-synonym\"><div class=\"synonym-link-wrapper\"><span class=\"synonym-link\">machine</span></div></div></div></html>";

const THESAURUS2_PAGE: &str = "<html><div data-testid=\"word-grid-container\"><ul><li><a href=\"/browse/auto\">auto<!-- --></a></li><li><a href=\"/browse/motor\">motor<!-- --></a></li></ul></div></html>";

const MERRIAM_PAGE: &str = "<html><ul class=\"mw-list\"><li><a href=\"/thesaurus/motor%20car\">motor car</a></li><li><a href=\"/thesaurus/auto\">auto</a></li></ul></html>";

#[test]
fn merriam_webster_test_empty_synonyms_result_thesaurus2() {
    let result = merriam_webster::raw_response_to_synonyms(MERRIAM_EMPTY.to_string());
    assert_eq!(result, Ok(vec![]))
}

#[test]
fn test_single_synonym() {
    let result = SingleSynonym { raw_html: SINGLE_SYNONYM.to_string() }.get_synonym();
    assert_eq!(result, "motor-car")
}

#[test]
fn test_empty_synonyms_result() {
    let result = thesaurus::raw_response_to_synonyms(THESAURUS_EMPTY.to_string());
    assert_eq!(result, Ok(vec![]))
}

#[test]
fn thesaurus2_test_empty_synonyms_result_thesaurus2() {
    let result = thesaurus2::raw_response_to_synonyms(THESAURUS2_EMPTY.to_string());
    assert_eq!(result, Ok(vec![]))
}

#[test]
fn single_synonym_inside_span() {
    let html = "<div class=\"synonym-link-wrapper\"><span class=\"synonym-link\">automobile</span></div>";
    let mut block = SingleSynonym { raw_html: html.to_string() };
    assert!(block.has_synonym());
    assert_eq!(block.get_synonym(), "automobile");
    assert_eq!(block.raw_html, html);
}

#[test]
fn single_synonym_missing_link_is_detected() {
    let block = SingleSynonym { raw_html: "<div class=\"single-synonym\">nothing</div>".to_string() };
    assert!(!block.has_synonym());
}

#[test]
fn thesaurus_lists_synonyms_in_order() {
    let result = thesaurus::raw_response_to_synonyms(THESAURUS_PAGE.to_string());
    assert_eq!(result, Ok(vec!["auto".to_string(), "machine".to_string()]));
}

#[test]
fn thesaurus_without_wrapper_is_not_well_formed() {
    assert!(!thesaurus::is_well_formed("<html>something else</html>"));
    assert!(thesaurus::is_well_formed(THESAURUS_PAGE));
    assert!(thesaurus::is_well_formed(THESAURUS_EMPTY));
}

#[test]
fn thesaurus2_drops_the_last_item() {
    let result = thesaurus2::raw_response_to_synonyms(THESAURUS2_PAGE.to_string());
    assert_eq!(result, Ok(vec!["auto".to_string(), "motor".to_string()]));
}

#[test]
fn thesaurus2_without_grid_is_not_well_formed() {
    assert!(!thesaurus2::is_well_formed("<html><ul><li>x</li></ul></html>"));
    assert!(thesaurus2::is_well_formed(THESAURUS2_PAGE));
}

#[test]
fn merriam_webster_decodes_spaces_and_keeps_links() {
    let result = merriam_webster::raw_response_to_synonyms(MERRIAM_PAGE.to_string());
    assert_eq!(result, Ok(vec!["motor car".to_string(), "auto".to_string()]));
}

#[test]
fn merriam_webster_without_list_is_not_well_formed() {
    assert!(!merriam_webster::is_well_formed("<html>no list here</html>"));
    assert!(merriam_webster::is_well_formed(MERRIAM_EMPTY));
}

#[test]
fn merriam_webster_scrap_reads_the_first_list() {
    let page = "<html><ul class=\"mw-list\"><li><a href=\"/thesaurus/motor%20car\">x</a></li></ul><ul class=\"mw-list\"><li><a href=\"/thesaurus/auto\">y</a></li></ul></html>";
    assert!(merriam_webster::is_scrapable(page));
    let result = merriam_webster::scrap_synonyms(page.to_string());
    assert_eq!(result, vec!["motor car".to_string()]);
    let forward = merriam_webster::raw_response_to_synonyms(page.to_string());
    assert_eq!(forward, Ok(vec!["motor car".to_string()]));
}

#[test]
fn merriam_webster_scrap_keeps_every_piece_after_a_link_path() {
    let result = merriam_webster::scrap_synonyms(MERRIAM_PAGE.to_string());
    assert_eq!(result, vec!["motor car".to_string(), "auto".to_string()]);
    assert!(!merriam_webster::is_scrapable("<html></html>"));
}

#[test]
fn merriam_webster_failed_request_gives_no_synonyms() {
    let none = merriam_webster::synonyms_from_answer(Err("timeout".to_string()));
    assert!(none.is_empty());
    let some = merriam_webster::synonyms_from_answer(Ok(MERRIAM_PAGE.to_string()));
    assert_eq!(some, vec!["motor car".to_string(), "auto".to_string()]);
}

#[test]
fn base_urls_of_the_sites() {
    assert_eq!(Provider::Thesaurus.base_url(), "https://thesaurus.yourdictionary.com/");
    assert_eq!(Provider::MerriamWebster.base_url(), "https://www.merriam-webster.com/thesaurus/");
    assert_eq!(Provider::Thesaurus2.base_url(), "https://www.thesaurus.com/browse/");
}

#[test]
fn query_url_appends_the_word() {
    let url = query_url("car", Provider::Thesaurus2.base_url());
    assert_eq!(url, "https://www.thesaurus.com/browse/car");
}

#[test]
fn parse_response_uses_the_reader_of_the_site() {
    assert!(is_well_formed(&Provider::Thesaurus, THESAURUS_PAGE));
    assert!(!is_well_formed(&Provider::Thesaurus2, THESAURUS_PAGE));
    let result = parse_response(&Provider::Thesaurus2, THESAURUS2_PAGE.to_string());
    assert_eq!(result, Ok(vec!["auto".to_string(), "motor".to_string()]));
    let result = parse_response(&Provider::MerriamWebster, MERRIAM_PAGE.to_string());
    assert_eq!(result, Ok(vec!["motor car".to_string(), "auto".to_string()]));
}

#[test]
fn one_message_per_synonym() {
    let msgs = synonym_messages("car", vec!["auto".to_string(), "motor".to_string()]);
    assert_eq!(msgs.len(), 2);
    match &msgs[1] {
        ResultBuilderMessage::NewSynonym { word, synonym } => {
            assert_eq!(word, "car");
            assert_eq!(synonym, "motor");
        }
        ResultBuilderMessage::NoMoreSynonyms => panic!("unexpected end message"),
    }
    let msgs = messages_for_answer("car", &Provider::Thesaurus, THESAURUS_PAGE.to_string());
    assert_eq!(msgs.len(), 2);
    match &msgs[0] {
        ResultBuilderMessage::NewSynonym { word, synonym } => {
            assert_eq!(word, "car");
            assert_eq!(synonym, "auto");
        }
        ResultBuilderMessage::NoMoreSynonyms => panic!("unexpected end message"),
    }
}

#[test]
fn an_answer_counts_each_synonym_once() {
    let page = "<html><ul class=\"mw-list\"><li><a href=\"/thesaurus/auto\">auto</a></li><li><a href=\"/thesaurus/auto\">auto</a></li><li><a href=\"/thesaurus/motor\">motor</a></li></ul></html>";
    let msgs = messages_for_answer("car", &Provider::MerriamWebster, page.to_string());
    let synonyms: Vec<String> = msgs
        .iter()
        .map(|m| match m {
            ResultBuilderMessage::NewSynonym { synonym, .. } => synonym.clone(),
            ResultBuilderMessage::NoMoreSynonyms => panic!("unexpected end message"),
        })
        .collect();
    assert_eq!(synonyms, vec!["auto".to_string(), "motor".to_string()]);
}
