use symboltables::frequencycounter::FrequencyCounter;

// The classic tale opening, the small text the counter exercises work on:
// sixty words, twenty distinct ones, "it" ten times.
const TINY_TALE: &str = "\
it was the best of times it was the worst of times
it was the age of wisdom it was the age of foolishness
it was the epoch of belief it was the epoch of incredulity
it was the season of light it was the season of darkness
it was the spring of hope it was the winter of despair
";

#[test]
fn test_words() {
    let s = "The quick brown fox jumped over the lazy dog";
    let ws = FrequencyCounter::words(s);
    assert_eq!(
        ws,
        vec![
            "The", "quick", "brown", "fox", "jumped", "over", "the", "lazy", "dog"
        ]
    );
}

#[test]
fn test_count() {
    let frequency_counter = FrequencyCounter::new(TINY_TALE, 1);
    assert_eq!(frequency_counter.words, 60);
    assert_eq!(frequency_counter.distinct, 20);
    assert_eq!(frequency_counter.max, "it");
    assert_eq!(frequency_counter.frequency, 10);
}

#[test]
fn test_words_edges() {
    assert_eq!(FrequencyCounter::words(""), Vec::<String>::new());
    assert_eq!(FrequencyCounter::words("   \t \n "), Vec::<String>::new());
    assert_eq!(FrequencyCounter::words("  a   bb \t c "), vec!["a", "bb", "c"]);
    assert_eq!(FrequencyCounter::words("one"), vec!["one"]);
}

#[test]
fn test_count_min_length() {
    // only words of at least four characters count
    let fc = FrequencyCounter::new(TINY_TALE, 4);
    assert_eq!(fc.words, 18);
    assert_eq!(fc.distinct, 15);
    // every long word appears once or twice; "times" ties with "epoch" and
    // others at two, and the lexicographically smallest of them wins
    assert_eq!(fc.frequency, 2);
    assert_eq!(fc.max, "epoch");
}

#[test]
fn test_count_empty() {
    let fc = FrequencyCounter::new("", 1);
    assert_eq!(fc.words, 0);
    assert_eq!(fc.distinct, 0);
    assert_eq!(fc.max, "");
    assert_eq!(fc.frequency, 0);
}

#[test]
fn test_count_no_qualifying() {
    let fc = FrequencyCounter::new("a bb c", 3);
    assert_eq!(fc.words, 0);
    assert_eq!(fc.distinct, 0);
    assert_eq!(fc.max, "");
    assert_eq!(fc.frequency, 0);
}
