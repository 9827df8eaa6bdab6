use wordle_filter::candidate::get_candidate;
use wordle_filter::candidate::sort_hash_by_value;
use wordle_filter::lexicon::Lexicon;
use wordle_filter::score::check_wordle;
use wordle_filter::score::match_result;
use wordle_filter::score::BLOW;
use wordle_filter::score::HIT;
use wordle_filter::score::MISS;

#[test]
fn t_check_wordle() {
    let r = check_wordle(&"test".to_string(), &"test2".to_string());
    let answer: Vec<u8> = vec![MISS, MISS, MISS, MISS];
    assert_eq!(r, answer);
    let r = check_wordle(&"test2".to_string(), &"test2".to_string());
    let answer: Vec<u8> = vec![HIT, HIT, HIT, HIT, HIT];
    assert_eq!(r, answer);
    let r = check_wordle(&"abcde".to_string(), &"etaio".to_string());
    let answer: Vec<u8> = vec![BLOW, MISS, MISS, MISS, BLOW];
    assert_eq!(r, answer);
    let r = check_wordle(&"raise".to_string(), &"roops".to_string());
    let answer: Vec<u8> = vec![HIT, MISS, MISS, BLOW, MISS];
    assert_eq!(r, answer);
    let r = check_wordle(&"raise".to_string(), &"cynic".to_string());
    let answer: Vec<u8> = vec![MISS, MISS, BLOW, MISS, MISS];
    assert_eq!(r, answer);
    let r = check_wordle(&"indol".to_string(), &"cynic".to_string());
    let answer: Vec<u8> = vec![BLOW, BLOW, MISS, MISS, MISS];
    assert_eq!(r, answer);
    let r = check_wordle(&"cutin".to_string(), &"cynic".to_string());
    let answer: Vec<u8> = vec![HIT, MISS, MISS, HIT, BLOW];
    assert_eq!(r, answer);
    let r = check_wordle(&"civic".to_string(), &"cynic".to_string());
    let answer: Vec<u8> = vec![HIT, MISS, MISS, HIT, HIT];
    assert_eq!(r, answer);
    let r = check_wordle(&"shining".to_string(), &"singing".to_string());
    let answer: Vec<u8> = vec![HIT, MISS, BLOW, BLOW, HIT, HIT, HIT];
    assert_eq!(r, answer);
}

#[test]
fn t_match_result() {
    let t: Vec<u8> = vec![MISS, MISS, MISS, MISS, MISS];
    assert!(match_result(t, &"00000".to_string()), "00000");
    let t: Vec<u8> = vec![HIT, HIT, HIT, HIT, HIT];
    assert!(match_result(t, &"22222".to_string()), "22222");
    let t: Vec<u8> = vec![BLOW, BLOW, BLOW, BLOW, BLOW];
    assert!(match_result(t, &"11111".to_string()), "11111");
    let t: Vec<u8> = vec![MISS, MISS, MISS, MISS, MISS];
    assert!(match_result(t, &"10000".to_string()) == false, "10000");
    let t: Vec<u8> = vec![BLOW, MISS, HIT, BLOW, MISS];
    assert!(match_result(t, &"10210".to_string()) == true, "10210");
}

fn sample_lexicon() -> Lexicon {
    let mut lex = Lexicon::new();
    lex.insert("roops".to_string(), 7);
    lex.insert("cynic".to_string(), 3);
    lex.insert("raise".to_string(), 11);
    lex
}

#[test]
fn filter_without_constraints_keeps_everything() {
    let lex = sample_lexicon();
    let constraints: Vec<(String, String)> = Vec::new();
    let kept = get_candidate(&lex, &constraints);
    assert_eq!(kept.len(), 3);
    assert_eq!(kept.get(&"roops".to_string()), Some(7));
    assert_eq!(kept.get(&"cynic".to_string()), Some(3));
    assert_eq!(kept.get(&"raise".to_string()), Some(11));
}

#[test]
fn filter_requires_exact_pattern_match() {
    // score("raise", "roops") encodes to "20010", so the pattern "10200"
    // excludes "roops" while "20010" retains it.
    let mut lex = Lexicon::new();
    lex.insert("roops".to_string(), 7);
    let wrong = vec![("raise".to_string(), "10200".to_string())];
    let kept = get_candidate(&lex, &wrong);
    assert_eq!(kept.len(), 0);
    assert_eq!(kept.get(&"roops".to_string()), None);
    let right = vec![("raise".to_string(), "20010".to_string())];
    let kept = get_candidate(&lex, &right);
    assert_eq!(kept.len(), 1);
    assert_eq!(kept.get(&"roops".to_string()), Some(7));
}

#[test]
fn filter_twice_equals_filter_once() {
    let lex = sample_lexicon();
    let constraints = vec![("raise".to_string(), "20010".to_string())];
    let once = get_candidate(&lex, &constraints);
    let twice = get_candidate(&once, &constraints);
    assert_eq!(once.len(), twice.len());
    assert_eq!(once.get(&"roops".to_string()), twice.get(&"roops".to_string()));
    assert_eq!(once.get(&"cynic".to_string()), twice.get(&"cynic".to_string()));
    assert_eq!(once.get(&"raise".to_string()), twice.get(&"raise".to_string()));
}

#[test]
fn filter_rejects_length_mismatch() {
    // "test2" has the wrong length, so scoring yields all MISS and the
    // all-HIT pattern "2222" excludes it; "test" itself survives.
    let mut lex = Lexicon::new();
    lex.insert("test".to_string(), 1);
    lex.insert("test2".to_string(), 2);
    let constraints = vec![("test".to_string(), "2222".to_string())];
    let kept = get_candidate(&lex, &constraints);
    assert_eq!(kept.len(), 1);
    assert_eq!(kept.get(&"test".to_string()), Some(1));
    assert_eq!(kept.get(&"test2".to_string()), None);
}

#[test]
fn sort_orders_by_ascending_weight() {
    let lex = sample_lexicon();
    let sorted = sort_hash_by_value(&lex);
    assert_eq!(sorted.len(), 3);
    assert_eq!(sorted[0].0, "cynic");
    assert_eq!(sorted[0].1, 3);
    assert_eq!(sorted[1].0, "roops");
    assert_eq!(sorted[1].1, 7);
    assert_eq!(sorted[2].0, "raise");
    assert_eq!(sorted[2].1, 11);
}

#[test]
fn lexicon_insert_overrides_weight() {
    let mut lex = Lexicon::new();
    lex.insert("tares".to_string(), 4);
    assert!(lex.contains_word(&"tares".to_string()));
    assert_eq!(lex.get(&"tares".to_string()), Some(4));
    lex.insert("tares".to_string(), 9);
    assert_eq!(lex.len(), 1);
    assert_eq!(lex.get(&"tares".to_string()), Some(9));
    assert!(!lex.contains_word(&"snare".to_string()));
    assert_eq!(lex.get(&"snare".to_string()), None);
}

#[test]
fn short_pattern_checks_only_its_prefix() {
    let t: Vec<u8> = vec![HIT, BLOW, MISS];
    assert!(match_result(t, &"21".to_string()));
    let t: Vec<u8> = vec![HIT, BLOW, MISS];
    assert!(!match_result(t, &"20".to_string()));
    let t: Vec<u8> = vec![HIT, BLOW, MISS];
    assert!(match_result(t, &"".to_string()));
}
