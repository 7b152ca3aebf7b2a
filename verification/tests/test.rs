use autocomplete::Dictionary;

#[test]
fn inserting() {
    let mut dict = Dictionary::new();
    assert_eq!(dict.words("A"), vec![]);

    dict.insert(String::from("A"), 1);
    assert_eq!(dict.words("A"), vec![(String::from("A"), 1)]);

    dict.insert(String::from("AA"), 2);
    assert_eq!(
        dict.words("A"),
        vec![(String::from("AA"), 2), (String::from("A"), 1),]
    );

    dict.insert(String::from("ABC"), 3);
    assert_eq!(
        dict.words("A"),
        vec![
            (String::from("ABC"), 3),
            (String::from("AA"), 2),
            (String::from("A"), 1),
        ]
    );

    // Test overwriting weights
    dict.insert(String::from("A"), 10);
    assert_eq!(
        dict.words("A"),
        vec![
            (String::from("A"), 10),
            (String::from("ABC"), 3),
            (String::from("AA"), 2),
        ]
    );
}

#[test]
fn non_ascii_strings() {
    let words = vec![String::from("úpěl")];
    let dict = Dictionary::build_without_weights(words);

    assert_eq!(dict.words("ú"), vec![(String::from("úpěl"), 0)]);
}

#[test]
fn ordering() {
    // Test that the words are ordered by alphabetical order when weights are equal
    let words = vec![
        (String::from("AB"), 2),
        (String::from("AC"), 1),
        (String::from("AA"), 1),
        (String::from("AD"), 1),
    ];

    let dict = Dictionary::build(words);

    assert_eq!(
        dict.words("A"),
        vec![
            (String::from("AB"), 2),
            (String::from("AA"), 1),
            (String::from("AC"), 1),
            (String::from("AD"), 1),
        ]
    );
}

#[test]
fn building_from_word_list() {
    let words = vec![
        String::from("test"),
        String::from("testament"),
        String::from("tested"),
        String::from("tester"),
        String::from("testify"),
        String::from("toast"),
        String::from("toad"),
    ];
    let words_count = words.len();
    let dict = Dictionary::build_without_weights(words);

    assert_eq!(dict.words("").len(), words_count);
    assert_eq!(dict.words("not_in_dictionary").len(), 0);
    assert_eq!(
        dict.words("test"),
        vec![
            (String::from("test"), 0),
            (String::from("testament"), 0),
            (String::from("tested"), 0),
            (String::from("tester"), 0),
            (String::from("testify"), 0),
        ]
    );
    assert_eq!(
        dict.words("to"),
        vec![(String::from("toad"), 0), (String::from("toast"), 0)]
    );
}

#[test]
fn empty_trie() {
    let dict = Dictionary::new();
    assert_eq!(dict.words("anything"), vec![]);
    assert_eq!(dict.words(""), vec![]);
}

#[test]
fn unmatched_prefix() {
    let mut dict = Dictionary::new();
    dict.insert(String::from("alpha"), 3);
    dict.insert(String::from("beta"), 5);
    assert_eq!(dict.words("gamma"), vec![]);
    assert_eq!(dict.words("alphabet"), vec![]);
}

#[test]
fn distinct_words_once() {
    // Re-inserted words collapse to one entry, under their last weight.
    let mut dict = Dictionary::new();
    dict.insert(String::from("one"), 1);
    dict.insert(String::from("two"), 2);
    dict.insert(String::from("one"), 7);
    dict.insert(String::from("two"), 2);
    assert_eq!(
        dict.words(""),
        vec![(String::from("one"), 7), (String::from("two"), 2)]
    );
}

#[test]
fn idempotent_insert() {
    // Inserting the same pair twice leaves the results of a single insert.
    let mut once = Dictionary::new();
    once.insert(String::from("word"), 4);
    let mut twice = Dictionary::new();
    twice.insert(String::from("word"), 4);
    twice.insert(String::from("word"), 4);
    assert_eq!(once.words(""), twice.words(""));
    assert_eq!(once.words("wo"), twice.words("wo"));
}

#[test]
fn overwrite_leaves_siblings() {
    // A new weight for an existing word changes only that entry.
    let mut dict = Dictionary::new();
    dict.insert(String::from("car"), 1);
    dict.insert(String::from("cart"), 2);
    dict.insert(String::from("care"), 3);
    dict.insert(String::from("cart"), 9);
    assert_eq!(
        dict.words("car"),
        vec![
            (String::from("cart"), 9),
            (String::from("care"), 3),
            (String::from("car"), 1),
        ]
    );
}

#[test]
fn empty_word() {
    // The empty string is a legal word, stored at the root itself.
    let mut dict = Dictionary::new();
    dict.insert(String::from(""), 5);
    dict.insert(String::from("a"), 7);
    assert_eq!(
        dict.words(""),
        vec![(String::from("a"), 7), (String::from(""), 5)]
    );
    assert_eq!(dict.words("a"), vec![(String::from("a"), 7)]);
}

#[test]
fn exact_word_prefix() {
    // A prefix that is itself an indexed word is included; with all
    // weights equal it comes first among its own extensions.
    let words = vec![
        (String::from("test"), 1),
        (String::from("tester"), 1),
        (String::from("testament"), 1),
    ];
    let dict = Dictionary::build(words);
    assert_eq!(
        dict.words("test"),
        vec![
            (String::from("test"), 1),
            (String::from("testament"), 1),
            (String::from("tester"), 1),
        ]
    );
}

#[test]
fn build_last_weight_wins() {
    let words = vec![
        (String::from("dup"), 1),
        (String::from("other"), 5),
        (String::from("dup"), 8),
    ];
    let dict = Dictionary::build(words);
    assert_eq!(
        dict.words(""),
        vec![(String::from("dup"), 8), (String::from("other"), 5)]
    );
}

#[test]
fn multibyte_prefix_walk() {
    // Trie edges are whole characters: a multi-byte character is one edge.
    let mut dict = Dictionary::new();
    dict.insert(String::from("úpěl"), 2);
    dict.insert(String::from("úhel"), 3);
    assert_eq!(
        dict.words("ú"),
        vec![(String::from("úhel"), 3), (String::from("úpěl"), 2)]
    );
    assert_eq!(dict.words("úp"), vec![(String::from("úpěl"), 2)]);
}
