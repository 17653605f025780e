use synonym_search::throttle::RequestTurn;
use synonym_search::config::{min_wait_millis, run_mode, RunMode};
use synonym_search::logger::log_line;
use synonym_search::messages::{ResultBuilderMessage, SleeperMessage};
use synonym_search::progress::SearchProgress;
use synonym_search::tally::SynonymTally;
use synonym_search::text::{distinct, chars_of, contains_exec, join_exec, replace_exec, rsplit_exec, split_exec, string_of};

fn strings(v: &[&str]) -> Vec<String> {
    v.iter().map(|s| s.to_string()).collect()
}

fn sorted(entries: Vec<(String, Vec<(String, usize)>)>) -> Vec<(String, Vec<(String, usize)>)> {
    let mut entries: Vec<(String, Vec<(String, usize)>)> = entries
        .into_iter()
        .map(|(w, mut counts)| {
            counts.sort();
            (w, counts)
        })
        .collect();
    entries.sort();
    entries
}

#[test]
fn tally_counts_each_site_once() {
    let mut tally = SynonymTally::new();
    tally.add_synonyms("car", &strings(&["auto", "motor", "auto"]));
    tally.add_synonyms("car", &strings(&["auto"]));
    assert_eq!(tally.count("car", "auto"), 2);
    assert_eq!(tally.count("car", "motor"), 1);
    assert_eq!(tally.count("car", "wagon"), 0);
    assert_eq!(tally.count("bike", "auto"), 0);
}

#[test]
fn tally_lists_each_synonym_once() {
    let mut tally = SynonymTally::new();
    tally.add_synonym("car", "auto");
    tally.add_synonym("car", "auto");
    tally.add_synonym("house", "home");
    let entries = sorted(tally.into_entries());
    assert_eq!(
        entries,
        vec![
            ("car".to_string(), vec![("auto".to_string(), 2)]),
            ("house".to_string(), vec![("home".to_string(), 1)]),
        ]
    );
}

#[test]
fn tally_keeps_a_word_with_an_empty_list() {
    let mut tally = SynonymTally::new();
    tally.add_synonyms("qwzx", &Vec::new());
    let entries = tally.into_entries();
    assert_eq!(entries, vec![("qwzx".to_string(), vec![])]);
}

#[test]
fn tally_does_not_depend_on_arrival_order() {
    let mut first = SynonymTally::new();
    first.add_synonyms("car", &strings(&["auto", "motor"]));
    first.add_synonyms("house", &strings(&["home"]));
    first.add_synonyms("car", &strings(&["auto"]));
    let mut second = SynonymTally::new();
    second.add_synonyms("car", &strings(&["auto"]));
    second.add_synonyms("house", &strings(&["home"]));
    second.add_synonyms("car", &strings(&["motor", "auto"]));
    assert_eq!(sorted(first.into_entries()), sorted(second.into_entries()));
}

#[test]
fn result_builder_messages() {
    let mut tally = SynonymTally::new();
    let done = tally.handle_message(ResultBuilderMessage::NewSynonym {
        word: "car".to_string(),
        synonym: "auto".to_string(),
    });
    assert!(!done);
    assert!(tally.handle_message(ResultBuilderMessage::NoMoreSynonyms));
    assert_eq!(tally.count("car", "auto"), 1);
}

#[test]
fn search_ends_once_after_all_answers() {
    let mut progress = SearchProgress::new();
    progress.set_providers(3);
    progress.add_word();
    progress.add_word();
    let ends: Vec<bool> = (0..8).map(|_| progress.provider_finished()).collect();
    assert_eq!(ends, vec![false, false, false, false, false, true, false, false]);
    assert_eq!(progress.num_processed_words, 8);
}

#[test]
fn search_without_words_ends_once_the_input_is_read() {
    let mut progress = SearchProgress::new();
    progress.set_providers(3);
    assert!(progress.all_answered());
    progress.add_word();
    assert!(!progress.all_answered());
}

#[test]
fn split_and_join_give_back_the_text() {
    let s = chars_of("a<b<<c");
    let sep = chars_of("<");
    let parts = split_exec(&s, &sep);
    let texts: Vec<String> = parts.iter().map(|p| p.iter().collect()).collect();
    assert_eq!(texts, strings(&["a", "b", "", "c"]));
    assert_eq!(join_exec(&parts, &sep), s);
}

#[test]
fn split_matches_do_not_overlap() {
    let parts = split_exec(&chars_of("aaa"), &chars_of("aa"));
    let texts: Vec<String> = parts.iter().map(|p| p.iter().collect()).collect();
    assert_eq!(texts, strings(&["", "a"]));
    let parts = rsplit_exec(&chars_of("aaa"), &chars_of("aa"));
    let texts: Vec<String> = parts.iter().map(|p| p.iter().collect()).collect();
    assert_eq!(texts, strings(&["", "a"]));
    let parts = rsplit_exec(&chars_of("x>y>z"), &chars_of(">"));
    let texts: Vec<String> = parts.iter().map(|p| p.iter().collect()).collect();
    assert_eq!(texts, strings(&["z", "y", "x"]));
}

#[test]
fn replace_and_contains() {
    let r = replace_exec(&chars_of("motor%20car%20x"), &chars_of("%20"), &chars_of(" "));
    assert_eq!(string_of(&r), "motor car x");
    assert!(contains_exec(&chars_of("No results found"), &chars_of("results")));
    assert!(!contains_exec(&chars_of("No results"), &chars_of("found")));
}

#[test]
fn run_modes() {
    assert_eq!(run_mode("actors"), Some(RunMode::Actors));
    assert_eq!(run_mode("without_actors"), Some(RunMode::WithoutActors));
    assert_eq!(run_mode("both"), None);
    assert_eq!(min_wait_millis(2), 2000);
}

#[test]
fn log_lines_end_with_a_break() {
    assert_eq!(log_line("Starting..."), "Starting...\n");
    assert_eq!(SleeperMessage::RequestHasStarted, SleeperMessage::RequestHasStarted);
}

#[test]
fn count_is_the_number_of_sites_listing_a_synonym() {
    let mut tally = SynonymTally::new();
    tally.add_synonyms("car", &strings(&["auto", "motor"]));
    tally.add_synonyms("car", &strings(&["auto"]));
    tally.add_synonyms("car", &strings(&["wagon"]));
    assert_eq!(tally.count("car", "auto"), 2);
    assert_eq!(tally.count("car", "motor"), 1);
    assert_eq!(tally.count("car", "wagon"), 1);
}

#[test]
fn one_request_per_elapsed_wait() {
    let mut turn = RequestTurn::new();
    assert!(turn.is_open());
    assert!(turn.pass());
    assert!(!turn.is_open());
    assert!(!turn.pass());
    turn.reopen();
    assert!(turn.pass());
}

#[test]
fn distinct_keeps_first_occurrences() {
    let words = strings(&["car", "house", "car", "tree", "house"]);
    assert_eq!(distinct(&words), strings(&["car", "house", "tree"]));
}
