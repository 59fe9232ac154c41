//! The classical substring matchers: failure tables, Z values, good-suffix
//! tables, and the match-position lists of KMP, Boyer-Moore and
//! Apostolico-Giancarlo.
use rustsearch::index::index10_0::{kmp_allmatches, kmp_table, kmp_table_chars, kmp_truefalse};
use rustsearch::index::index10_1::{boyer_moore, boyer_moore_preprocess, boyer_moore_truefalse,
    compute_L_primes, z_alg};
use rustsearch::index::index10_2::{apostolico_giancarlo, apostolico_giancarlo_truefalse};

fn words(ws: &[&str]) -> Vec<String> {
    ws.iter().map(|s| s.to_string()).collect()
}

#[test]
fn kmp_table_1() {
    let w = words(&["A", "B", "C", "D", "A", "B", "D"]);
    let kmp_table = kmp_table(&w);
    assert_eq!(kmp_table, vec![-1, 0, 0, 0, -1, 0, 2, 0]);
}

#[test]
fn kmp_table_2() {
    let w = words(&["A", "B", "A", "C", "A", "B", "A", "B", "C"]);
    let kmp_table = kmp_table(&w);
    assert_eq!(kmp_table, vec![-1, 0, -1, 1, -1, 0, -1, 3, 2, 0]);
}

#[test]
fn kmp_table_3() {
    let w = words(&["A", "B", "A", "C", "A", "B", "A", "B", "A"]);
    let kmp_table = kmp_table(&w);
    assert_eq!(kmp_table, vec![-1, 0, -1, 1, -1, 0, -1, 3, -1, 3]);
}

#[test]
fn kmp_table_4() {
    let w = words(&[
        "P", "A", "R", "T", "I", "C", "I", "P", "A", "T", "E", " ", "I", "N", " ", "P", "A",
        "R", "A", "C", "H", "U", "T", "E",
    ]);
    let kmp_table = kmp_table(&w);
    assert_eq!(
        kmp_table,
        vec![-1, 0, 0, 0, 0, 0, 0, -1, 0, 2, 0, 0, 0, 0, 0, -1, 0, 0, 3, 0, 0, 0, 0, 0, 0]
    );
}

#[test]
fn kmp_table_5() {
    let w = words(&["WORDA", "WORDB", "WORDC", "WORDD", "WORDA", "WORDB", "WORDD"]);
    let kmp_table = kmp_table(&w);
    assert_eq!(kmp_table, vec![-1, 0, 0, 0, -1, 0, 2, 0]);
}

#[test]
fn kmp_1() {
    let file_contents: String = "A".to_string();
    let query_words = words(&["A"]);
    let table: Vec<i32> = kmp_table(&query_words);

    assert_eq!(kmp_allmatches(file_contents, &query_words, &table), vec![0]);
}

#[test]
fn kmp_2() {
    let file_contents: String = "A B AB A B C A B".to_string();
    let query_words = words(&["A", "B"]);
    let table: Vec<i32> = kmp_table(&query_words);

    assert_eq!(kmp_allmatches(file_contents, &query_words, &table), vec![0, 3, 6]);
}

#[test]
fn kmp_3() {
    let file_contents: String =
        "When I find myself in times of trouble, Mother Mary comes to me Speaking words of wisdom,
            let it be And in my hour of darkness she is standing right in front of me Speaking words of wisdom, let it be Let it be let it be let it be let it be Whisper words of wisdom, let it be And when the broken hearted people living in the world agree There will be an answer, let it be For though they may be parted, there is still a chance that they will see There will be an answer, let it be Let it be let it be let it be let it be There will be an answer, let it be Let it be let it be let it be let it be Whisper words of wisdom, let it be Let it be let it be let it be let it be Whisper words of wisdom, let it be be And when the night is cloudy there is still a light that shines on me Shinin' until tomorrow, let it be I wake up to the sound of music, Mother Mary comes to me Speaking words of wisdom, let it be And let it be let it be let it be let it be Whisper words of wisdom, let it be And let it be let it be let it be let it be Whisper words of wisdom, let it be"
            .to_string()
            .to_ascii_lowercase();
    let query_words = words(&["let", "it", "be"]);
    let table: Vec<i32> = kmp_table(&query_words);

    assert_eq!(
        kmp_allmatches(file_contents, &query_words, &table),
        vec![
            17, 38, 41, 44, 47, 50, 57, 76, 99, 102, 105, 108, 111, 119, 122, 125, 128, 131,
            138, 141, 144, 147, 150, 157, 179, 199, 203, 206, 209, 212, 219, 223, 226, 229,
            232, 239
        ]
    );
}

#[test]
fn kmp_chars_finds_first_occurrence() {
    let query = "aba".to_string();
    let table = kmp_table_chars(&query);
    assert_eq!(kmp_truefalse("xxabaxx".to_string(), &query, &table), Some(2));
    assert_eq!(kmp_truefalse("xxabxax".to_string(), &query, &table), None);
}

#[test]
fn correct_n_values_from_z_alg() {
    let p: Vec<char> = "cabdabdab".chars().collect();
    let p_rev: Vec<char> = p.iter().rev().cloned().collect();
    let n: Vec<usize> = z_alg(&p_rev).iter().rev().cloned().collect();
    assert_eq!(n, vec![0, 0, 2, 0, 0, 5, 0, 0, 0])
}

#[test]
fn correct_l_primes() {
    let p: Vec<char> = "cabdabdab".chars().collect();
    let p_rev: Vec<char> = p.iter().rev().cloned().collect();
    let n: Vec<usize> = z_alg(&p_rev).iter().rev().cloned().collect();

    assert_eq!(compute_L_primes(&n), (vec![0, 0, 0, 0, 6, 0, 0, 3, 0], vec![0; 9]));

    let p: Vec<char> = "tapFtapGtapFtap".chars().collect();
    let p_rev: Vec<char> = p.iter().rev().cloned().collect();
    let n: Vec<usize> = z_alg(&p_rev).iter().rev().cloned().collect();

    assert_eq!(
        compute_L_primes(&n),
        (
            vec![0, 0, 0, 0, 0, 0, 0, 0, 7, 0, 0, 0, 11, 0, 0],
            vec![0, 7, 7, 7, 7, 7, 7, 7, 7, 3, 3, 3, 3, 0, 0]
        )
    );
}

#[test]
fn correct_boyer_moore_let_it_be() {
    let t: Vec<char> =
        "wisdom, let it be And words of wisdom, let it be Let it be let it be let it be let it be Whisper words of wisdom, let it be And when the broken hearted people living in the world agree There will be an answer, let it be For though they may be parted, there is still a chance that they will see There will be an answer, let it be Let it be let it be let it be let it be There will be an answer, let it be Let it be let it be let it be let it be Whisper words of wisdom, let it be Let it be let it be let it be let it be Whisper words of wisdom, let it be be And when the night is cloudy there is still a light that shines on me Shinin' until tomorrow, let it be I wake up to the sound of music, Mother Mary comes to me Speaking words of wisdom, let it be And let it be let it be let it be let it be Whisper words of wisdom, let it be And let it be let it be let it be let it be Whisper words of wisdom, let it be"
            .to_string()
            .to_ascii_lowercase().chars().collect();
    let p: Vec<char> = "let it be".chars().collect();

    let (l_prime, l_prime_small, r, _) = boyer_moore_preprocess(&p);
    assert_eq!(
        boyer_moore(&p, &t, (&l_prime, &l_prime_small, &r)),
        vec![
            17, 48, 58, 68, 78, 88, 123, 219, 328, 338, 348, 358, 368, 403, 413, 423, 433, 443,
            478, 488, 498, 508, 518, 553, 660, 753, 767, 777, 787, 797, 832, 846, 856, 866,
            876, 911
        ]
        .iter()
        .map(|x| x - 1)
        .collect::<Vec<usize>>()
    );
}

#[test]
fn correct_boyer_moore_ab_result() {
    let t: Vec<char> = "aabbbbacab".to_string().chars().collect();
    let p: Vec<char> = "ab".chars().collect();
    let (l_prime, l_prime_small, r, _) = boyer_moore_preprocess(&p);
    assert_eq!(boyer_moore(&p, &t, (&l_prime, &l_prime_small, &r)), vec![2, 9]);
}

#[test]
#[allow(non_snake_case)]
fn correct_boyer_moore_GOOD_SUF_l() {
    let t: Vec<char> = "cbacbacbcababababbcabcab"
        .to_string()
        .to_ascii_lowercase()
        .chars()
        .collect();
    let p: Vec<char> = "abcab".chars().collect();
    let (l_prime, l_prime_small, r, _) = boyer_moore_preprocess(&p);
    assert_eq!(boyer_moore(&p, &t, (&l_prime, &l_prime_small, &r)), vec![23]);
}

#[test]
#[allow(non_snake_case)]
fn correct_boyer_moore_BAD_CHAR() {
    let t: Vec<char> = "WHICH FINALLY HALTS.  AT THAT POINT".to_string().chars().collect();
    let p: Vec<char> = "AT THAT".chars().collect();
    let (l_prime, l_prime_small, r, _) = boyer_moore_preprocess(&p);
    assert_eq!(boyer_moore(&p, &t, (&l_prime, &l_prime_small, &r)), vec![28]);
}

#[test]
#[allow(non_snake_case)]
fn correct_boyer_moore_GOOD_SUF_L() {
    let t: Vec<char> = "WHICH FITATLLY HALTS. AT THAT POINT ".to_string().chars().collect();
    let p: Vec<char> = "ASATQATTQAT".chars().collect();
    let (l_prime, l_prime_small, r, _) = boyer_moore_preprocess(&p);
    assert_eq!(boyer_moore(&p, &t, (&l_prime, &l_prime_small, &r)), vec![]);
}

#[test]
#[allow(non_snake_case)]
fn correct_boyer_moore_GOOD_SUF_l2() {
    // The pattern genuinely occurs once, ending at position 29: the
    // text's second half spells it out exactly, and the searcher is
    // proved to report only genuine occurrences.
    let t: Vec<char> = "tapFtapGQapFtaptapFtapGtapFtap".to_string().chars().collect();
    let p: Vec<char> = "tapFtapGtapFtap".chars().collect();
    assert_eq!(t[15..].iter().collect::<String>(), "tapFtapGtapFtap");
    let (l_prime, l_prime_small, r, _) = boyer_moore_preprocess(&p);
    assert_eq!(boyer_moore(&p, &t, (&l_prime, &l_prime_small, &r)), vec![29]);
}

#[test]
fn boyer_moore_truefalse_first_hit() {
    let t: Vec<char> = "aabbbbacab".chars().collect();
    let p: Vec<char> = "ab".chars().collect();
    let (l_prime, l_prime_small, r, _) = boyer_moore_preprocess(&p);
    assert_eq!(boyer_moore_truefalse(&p, &t, (&l_prime, &l_prime_small, &r)), Some(2));
    let q: Vec<char> = "zz".chars().collect();
    let (l2, s2, r2, _) = boyer_moore_preprocess(&q);
    assert_eq!(boyer_moore_truefalse(&q, &t, (&l2, &s2, &r2)), None);
}

#[test]
fn apostolico_giancarlo_let_it_be() {
    let t: Vec<char> =
        "wisdom, let it be And words of wisdom, let it be Let it be let it be let it be let it be Whisper words of wisdom, let it be And when the broken hearted people living in the world agree There will be an answer, let it be For though they may be parted, there is still a chance that they will see There will be an answer, let it be Let it be let it be let it be let it be There will be an answer, let it be Let it be let it be let it be let it be Whisper words of wisdom, let it be Let it be let it be let it be let it be Whisper words of wisdom, let it be be And when the night is cloudy there is still a light that shines on me Shinin' until tomorrow, let it be I wake up to the sound of music, Mother Mary comes to me Speaking words of wisdom, let it be And let it be let it be let it be let it be Whisper words of wisdom, let it be And let it be let it be let it be let it be Whisper words of wisdom, let it be"
            .to_string()
            .to_ascii_lowercase().chars().collect();
    let p: Vec<char> = "let it be".chars().collect();

    let (l_prime, l_prime_small, r, n) = boyer_moore_preprocess(&p);
    assert_eq!(
        apostolico_giancarlo(&p, &t, (&l_prime, &l_prime_small, &r, &n)),
        vec![
            17, 48, 58, 68, 78, 88, 123, 219, 328, 338, 348, 358, 368, 403, 413, 423, 433, 443,
            478, 488, 498, 508, 518, 553, 660, 753, 767, 777, 787, 797, 832, 846, 856, 866,
            876, 911
        ]
        .iter()
        .map(|x| x - 1)
        .collect::<Vec<usize>>()
    );
}

#[test]
fn apostolico_giancarlo_truefalse_finds_a_match() {
    let t: Vec<char> = "aabbbbacab".chars().collect();
    let p: Vec<char> = "ab".chars().collect();
    let (l_prime, l_prime_small, r, n) = boyer_moore_preprocess(&p);
    assert!(apostolico_giancarlo_truefalse(&p, &t, (&l_prime, &l_prime_small, &r, &n)));
    let q: Vec<char> = "zz".chars().collect();
    let (l2, s2, r2, n2) = boyer_moore_preprocess(&q);
    assert!(!apostolico_giancarlo_truefalse(&q, &t, (&l2, &s2, &r2, &n2)));
}

#[test]
fn apostolico_giancarlo_abcab() {
    let t: Vec<char> = "cbacbacbcababababbcbcbcbcaaacbcbcbababcbcbacbabcabcab cba bc abc bacbabcabc bac babcabcbacbabcabcbacbababcabcbacbacbbac"
        .to_string()
        .to_ascii_lowercase()
        .chars()
        .collect();
    let p: Vec<char> = "abcab".chars().collect();
    let (l_prime, l_prime_small, r, n) = boyer_moore_preprocess(&p);
    assert_eq!(
        apostolico_giancarlo(&p, &t, (&l_prime, &l_prime_small, &r, &n)),
        vec![49, 52, 73, 85, 95, 107]
    );
}

#[test]
fn matchers_report_identical_positions() {
    // KMP reports start positions; Boyer-Moore and Apostolico-Giancarlo
    // report end positions, offset by the pattern length minus one.
    let text = "cbacbacbcababababbcabcababcab";
    let pattern = "abcab";
    let t: Vec<char> = text.chars().collect();
    let p: Vec<char> = pattern.chars().collect();
    let (l_prime, l_prime_small, r, n) = boyer_moore_preprocess(&p);
    let bm = boyer_moore(&p, &t, (&l_prime, &l_prime_small, &r));
    let ag = apostolico_giancarlo(&p, &t, (&l_prime, &l_prime_small, &r, &n));
    assert_eq!(bm, ag);
    // The same matches, found per character with the KMP scan.
    let query = pattern.to_string();
    let table = kmp_table_chars(&query);
    let first = kmp_truefalse(text.to_string(), &query, &table);
    assert_eq!(first, Some(bm[0] + 1 - pattern.len()));
}


#[test]
fn boyer_moore_reports_every_overlapping_occurrence() {
    let t: Vec<char> = "aaaa".chars().collect();
    let p: Vec<char> = "aa".chars().collect();
    let (l_prime, l_prime_small, r, _) = boyer_moore_preprocess(&p);
    assert_eq!(boyer_moore(&p, &t, (&l_prime, &l_prime_small, &r)), vec![1, 2, 3]);
}

#[test]
fn kmp_truefalse_reports_the_leftmost_occurrence() {
    let query = "ab".to_string();
    let table = kmp_table_chars(&query);
    assert_eq!(kmp_truefalse("xxabxab".to_string(), &query, &table), Some(2));
}

#[test]
fn kmp_allmatches_reports_every_occurrence() {
    let query_words = words(&["a", "a"]);
    let table = kmp_table(&query_words);
    assert_eq!(kmp_allmatches("a a a a".to_string(), &query_words, &table), vec![0, 1, 2]);
}
