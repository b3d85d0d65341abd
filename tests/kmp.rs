use algo_kit::kmp::{compute_lps, kmp_search};

#[test]
fn lps_of_classic_pattern() {
    assert_eq!(compute_lps(b"ABABCABAB"), vec![0, 0, 1, 2, 0, 1, 2, 3, 4]);
    assert_eq!(compute_lps(b"AAAA"), vec![0, 1, 2, 3]);
    assert_eq!(compute_lps(b"AABAAA"), vec![0, 1, 0, 1, 2, 2]);
}

#[test]
fn lps_of_empty_pattern() {
    assert_eq!(compute_lps(b""), Vec::<usize>::new());
}

#[test]
fn search_finds_overlapping_matches() {
    assert_eq!(kmp_search(b"AAAAA", b"AA"), vec![0, 1, 2, 3]);
    assert_eq!(kmp_search(b"ABABDABACDABABCABAB", b"ABABCABAB"), vec![10]);
    assert_eq!(kmp_search(b"abcabcabc", b"abc"), vec![0, 3, 6]);
}

#[test]
fn search_without_match() {
    assert_eq!(kmp_search(b"hello world", b"xyz"), Vec::<usize>::new());
    assert_eq!(kmp_search(b"", b"a"), Vec::<usize>::new());
    assert_eq!(kmp_search(b"ab", b"abc"), Vec::<usize>::new());
}

#[test]
fn search_agrees_with_direct_scan() {
    let text = b"abaabaabbabaababaab";
    for pat in [&b"ab"[..], b"aba", b"baab", b"a", b"abaab", b"bb"] {
        let mut expected = Vec::new();
        for s in 0..=(text.len() - pat.len()) {
            if &text[s..s + pat.len()] == pat {
                expected.push(s);
            }
        }
        assert_eq!(kmp_search(text, pat), expected);
    }
}
