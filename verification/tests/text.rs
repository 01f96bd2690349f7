use sentiment_core::bignat::BigNat;
use sentiment_core::cluster;
use sentiment_core::ngram::{NgramMode, Representation};
use sentiment_core::regexb::RegexLogicalBuilder;
use sentiment_core::sniffer;
use sentiment_core::token;

#[test]
fn ngram_tokenizer_filters_and_joins() {
    let uni = NgramMode::Uni.tokeniser_tweet("Good GREAT ok stuff");
    assert_eq!(uni, vec!["good", "great", "stuff"]);
    let bi = NgramMode::Bi.tokeniser_tweet("Good GREAT ok stuff");
    assert_eq!(bi, vec!["good great", "great stuff"]);
    let both = NgramMode::UniBi.tokeniser_tweet("Good GREAT ok stuff");
    assert_eq!(both, vec!["good", "great", "stuff", "good great", "great stuff"]);
    let none = NgramMode::Bi.tokeniser_tweet("solo");
    assert!(none.is_empty());
}

#[test]
fn representation_presence_deduplicates() {
    let toks = vec!["aaaa".to_string(), "bbbb".to_string(), "aaaa".to_string()];
    assert_eq!(
        Representation::Presence.tokens_to_count(toks.clone()),
        vec!["aaaa".to_string(), "bbbb".to_string()]
    );
    assert_eq!(Representation::Frequence.tokens_to_count(toks.clone()), toks);
}

#[test]
fn whitespace_and_alnum_tokenizers_differ() {
    let ws = token::tokenize_whitespace("Don't stop, NOW");
    assert_eq!(ws, vec!["don't", "stop,", "now"]);
    let al = token::tokenize_alnum("Don't stop, NOW");
    assert_eq!(al, vec!["don", "t", "stop", "now"]);
}

#[test]
fn lowercasing_is_ascii() {
    assert_eq!(token::to_lower("AbC xyZ9"), "abc xyz9");
}

#[test]
fn cluster_distance_empty_sets_are_far() {
    let a = cluster::tokeniser_tweet("");
    let b = cluster::tokeniser_tweet("...");
    let d = cluster::distance(&a, &b);
    // the clustering convention puts two empty word sets at distance 1
    assert_eq!((d.num, d.den), (1, 1));
    let c = cluster::tokeniser_tweet("same words");
    let z = cluster::distance(&c, &c);
    assert_eq!(z.num, 0);
}

#[test]
fn majority_label_breaks_ties_low() {
    assert_eq!(cluster::majority_label(&vec![4, 0]), Some(0));
    assert_eq!(cluster::majority_label(&vec![2, 4, 4]), Some(4));
    assert_eq!(cluster::majority_label(&vec![]), None);
}

#[test]
fn builder_combinators_concatenate_patterns() {
    let url_list = vec!["http:".to_string(), "https:".to_string(), "www.".to_string()];
    let url = RegexLogicalBuilder::new()
        .any_of(RegexLogicalBuilder::strings_to_builders(&url_list))
        .group()
        .plus_non_space()
        .any_times()
        .as_word_end();
    assert_eq!(url.proc_result, "((http:)|(https:)|(www.))[^ ]*( |$)");
    let retweet = RegexLogicalBuilder::from_pattern("RT").as_whole_word();
    assert_eq!(retweet.proc_result, "( |^)RT( |$)");
    let user = RegexLogicalBuilder::from_pattern("@").plus_non_space().any_times().as_whole_word();
    assert_eq!(user.proc_result, "( |^)@[^ ]*( |$)");
    let ab = RegexLogicalBuilder::from_pattern("a").and(RegexLogicalBuilder::from_pattern("b"));
    assert_eq!(ab.proc_result, "((a).*(b))|((b).*(a))");
    let cls = RegexLogicalBuilder::class_from(&vec!["a-z".to_string(), "0-9".to_string()]);
    assert_eq!(cls.proc_result, "[a-z0-9]");
    let chain = RegexLogicalBuilder::from_pattern("x")
        .or()
        .plus(RegexLogicalBuilder::from_pattern("y"))
        .one_or_more()
        .plus_anything()
        .contains(RegexLogicalBuilder::from_pattern("z"));
    assert_eq!(chain.proc_result, "x|y+.*.*z");
    let empty_any = RegexLogicalBuilder::from_pattern("keep").any_of(Vec::new());
    assert_eq!(empty_any.proc_result, "keep");
}

#[test]
fn builder_patterns_compile_and_match() {
    let url_list = vec!["http:".to_string(), "https:".to_string(), "www.".to_string()];
    let url = RegexLogicalBuilder::new()
        .any_of(RegexLogicalBuilder::strings_to_builders(&url_list))
        .group()
        .plus_non_space()
        .any_times()
        .as_word_end();
    let re = url.build().expect("a valid pattern");
    assert!(re.is_match("see http://example.com for more"));
    assert!(!re.is_match("no links here"));
}

#[test]
fn protect_string_escapes_special_characters() {
    assert_eq!(RegexLogicalBuilder::protect_string("a.b"), "a\\.b");
    assert_eq!(RegexLogicalBuilder::protect_string("x+y*z"), "x\\+y\\*z");
    assert_eq!(RegexLogicalBuilder::protect_string("plain"), "plain");
    let escaped = RegexLogicalBuilder::protect_string("[?]");
    assert_eq!(escaped, "\\[\\?\\]");
    let re = RegexLogicalBuilder::from_pattern(&escaped).build().expect("valid");
    assert!(re.is_match("an [?] appears"));
}

#[test]
fn rem_last_drops_one_character() {
    assert_eq!(RegexLogicalBuilder::rem_last("abc"), "ab");
    assert_eq!(RegexLogicalBuilder::rem_last(""), "");
}

#[test]
fn rating_bytes_are_recognised() {
    assert!(sniffer::byte_is_rating(b'0'));
    assert!(sniffer::byte_is_rating(b'2'));
    assert!(sniffer::byte_is_rating(b'4'));
    assert!(!sniffer::byte_is_rating(b'3'));
    assert!(sniffer::bytes_is_rating(&vec![b'2']));
    assert!(sniffer::bytes_is_rating(&vec![b'"', b'0', b'"']));
    assert!(!sniffer::bytes_is_rating(&vec![b'2', b'2']));
    assert!(!sniffer::bytes_is_rating(&Vec::new()));
}

#[test]
fn rating_column_is_sniffed_from_cells() {
    let columns: Vec<Vec<Vec<u8>>> = vec![
        vec![b"hello".to_vec(), b"world".to_vec()],
        vec![b"0".to_vec(), b"2".to_vec()],
    ];
    assert_eq!(sniffer::infer_rating_col_from_veced(&columns), Some(1));
    let no_rating: Vec<Vec<Vec<u8>>> = vec![vec![b"xx".to_vec()]];
    assert_eq!(sniffer::infer_rating_col_from_veced(&no_rating), None);
}

#[test]
fn data_column_prefers_longer_cells() {
    let sizes: Vec<Vec<usize>> = vec![
        vec![1, 1],
        vec![20, 30],
        vec![500, 3], // a cell longer than a tweet disqualifies the column
    ];
    assert_eq!(sniffer::infer_data_col_from_sizes(&sizes), Some(1));
    let all_out: Vec<Vec<usize>> = vec![vec![400], vec![]];
    assert_eq!(sniffer::infer_data_col_from_sizes(&all_out), None);
}

#[test]
fn decoded_sizes_measure_decoded_bytes() {
    // a lone 0xE9 byte is not UTF-8, decodes to a two-byte character
    let columns: Vec<Vec<Vec<u8>>> = vec![vec![vec![0xe9], b"ab".to_vec()]];
    let sizes = sniffer::to_string_size(&columns);
    assert_eq!(sizes[0][0], 2, "the decoded text is measured, not the raw cell");
    assert_eq!(sizes[0][1], 2);
    let also = sniffer::map_to_string_size(&columns);
    assert_eq!(also[0][0], 2);
}

#[test]
fn columns_are_sniffed_from_headers() {
    // a header seen after the other side was found records its column
    // but not the find, so the scan always defers to the cells for the
    // side found last
    let headers = vec!["Tweet".to_string(), "Polarity".to_string()];
    match sniffer::sniff_labels_from_headers(&headers) {
        Err(sniffer::AutoLabelError::NoRatingFound { data_column }) => {
            assert_eq!(data_column, 0)
        },
        _ => panic!("the rating header comes too late to count"),
    }
    let swapped = vec!["Polarity".to_string(), "Tweet".to_string()];
    match sniffer::sniff_labels_from_headers(&swapped) {
        Err(sniffer::AutoLabelError::NoDataFound { rating_column }) => {
            assert_eq!(rating_column, 0)
        },
        _ => panic!("the data header comes too late to count"),
    }
    let only_data = vec!["tweet_content".to_string()];
    match sniffer::sniff_labels_from_headers(&only_data) {
        Err(sniffer::AutoLabelError::NoRatingFound { data_column }) => {
            assert_eq!(data_column, 0)
        },
        _ => panic!("the rating header is missing"),
    }
    let neither = vec!["id".to_string()];
    match sniffer::sniff_labels_from_headers(&neither) {
        Err(sniffer::AutoLabelError::NoLabelFound) => {},
        _ => panic!("no header is known"),
    }
}

#[test]
fn cells_settle_the_columns_with_fallbacks() {
    let columns: Vec<Vec<Vec<u8>>> = vec![
        vec![b"0".to_vec(), b"2".to_vec()],
        vec![b"some tweet text".to_vec(), b"another tweet".to_vec()],
    ];
    match sniffer::sniff_labels_from_veced(&columns) {
        Ok(c) => {
            assert_eq!(c.rating_column, 0);
            assert_eq!(c.data_column, 1);
        },
        Err(_) => panic!("both columns are recognisable"),
    }
    let r = sniffer::ColsSniffer::sniff_columns_from_vec2d(&columns);
    let opt = sniffer::to_auto_columns(&r, 9);
    assert_eq!(opt.data_column, 1);
    assert_eq!(opt.rating_column, Some(0));
    let fallback =
        sniffer::AutoColumnsError::NoDataFound { rating_column: 3 }.to_auto_columns(9);
    assert_eq!(fallback.data_column, 9);
    assert_eq!(fallback.rating_column, Some(3));
    assert!(sniffer::ColsSniffer::byte_is_rating(b'4'));
    assert!(!sniffer::ColsSniffer::byte_is_rating(b'3'));
    assert_eq!(sniffer::ColsSniffer::sniff_rating(&columns), Some(0));
    assert_eq!(sniffer::LabelSniffer::sniff_rating(&columns), Some(0));
}

#[test]
fn bignat_arithmetic_is_exact() {
    let max = BigNat::from_u64(u64::MAX);
    let a = max.mul_small(u64::MAX);
    let b = max.mul(&max);
    assert!(a.eq_value(&b));
    assert!(!a.lt(&b));
    let bigger = a.add(&BigNat::from_u64(1));
    assert!(a.lt(&bigger));
    let back = bigger.sub(&BigNat::from_u64(1));
    assert!(back.eq_value(&a));
    assert!(BigNat::from_u64(0).is_zero());
    assert!(!BigNat::from_u64(3).is_zero());
    let shifted = BigNat::from_u64(1).shift_limbs(2);
    let direct = BigNat::from_u64(1).mul_small(u64::MAX).add(&BigNat::from_u64(1)).mul_small(
        u64::MAX,
    ).add(&BigNat::from_u64(1).mul_small(u64::MAX)).add(&BigNat::from_u64(1));
    // 2^128 == (2^64 - 1)^2 + 2 * (2^64 - 1) + 1
    assert!(shifted.eq_value(&direct));
}

#[test]
fn trim_quotes_strips_both_ends() {
    assert_eq!(sentiment_core::trim_quotes("\"abc\""), "abc");
    assert_eq!(sentiment_core::trim_quotes("\"\"\"x\""), "x");
    assert_eq!(sentiment_core::trim_quotes("plain"), "plain");
    assert_eq!(sentiment_core::trim_quotes("\"\""), "");
}
