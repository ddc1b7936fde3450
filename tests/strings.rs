use malachite_nz::strings::lex_fixed_length_strings_using_chars;

fn lex_fixed_length_strings_using_chars_helper(len: u64, cs: &[char], out: &[&str]) {
    let mut it = lex_fixed_length_strings_using_chars(len, cs.to_vec());
    let mut css: Vec<String> = Vec::new();
    while css.len() < 20 {
        match it.next() {
            Some(w) => css.push(w.iter().collect()),
            None => break,
        }
    }
    assert_eq!(css.iter().map(String::as_str).collect::<Vec<_>>().as_slice(), out);
}

#[test]
fn test_lex_fixed_length_strings_using_chars() {
    lex_fixed_length_strings_using_chars_helper(0, &[], &[""]);
    lex_fixed_length_strings_using_chars_helper(1, &[], &[]);
    lex_fixed_length_strings_using_chars_helper(0, &['q'], &[""]);
    lex_fixed_length_strings_using_chars_helper(1, &['q'], &["q"]);
    lex_fixed_length_strings_using_chars_helper(2, &['q'], &["qq"]);
    lex_fixed_length_strings_using_chars_helper(3, &['q'], &["qqq"]);
    lex_fixed_length_strings_using_chars_helper(10, &['q'], &["qqqqqqqqqq"]);
    lex_fixed_length_strings_using_chars_helper(0, &['x', 'y'], &[""]);
    lex_fixed_length_strings_using_chars_helper(1, &['x', 'y'], &["x", "y"]);
    lex_fixed_length_strings_using_chars_helper(2, &['x', 'y'], &["xx", "xy", "yx", "yy"]);
    lex_fixed_length_strings_using_chars_helper(
        3,
        &['x', 'y'],
        &["xxx", "xxy", "xyx", "xyy", "yxx", "yxy", "yyx", "yyy"],
    );
    lex_fixed_length_strings_using_chars_helper(
        10,
        &['x', 'y'],
        &[
            "xxxxxxxxxx", "xxxxxxxxxy", "xxxxxxxxyx", "xxxxxxxxyy", "xxxxxxxyxx", "xxxxxxxyxy",
            "xxxxxxxyyx", "xxxxxxxyyy", "xxxxxxyxxx", "xxxxxxyxxy", "xxxxxxyxyx", "xxxxxxyxyy",
            "xxxxxxyyxx", "xxxxxxyyxy", "xxxxxxyyyx", "xxxxxxyyyy", "xxxxxyxxxx", "xxxxxyxxxy",
            "xxxxxyxxyx", "xxxxxyxxyy",
        ],
    );
    lex_fixed_length_strings_using_chars_helper(0, &['c', 'a', 't'], &[""]);
    lex_fixed_length_strings_using_chars_helper(1, &['c', 'a', 't'], &["c", "a", "t"]);
    lex_fixed_length_strings_using_chars_helper(
        2,
        &['c', 'a', 't'],
        &["cc", "ca", "ct", "ac", "aa", "at", "tc", "ta", "tt"],
    );
    lex_fixed_length_strings_using_chars_helper(
        3,
        &['c', 'a', 't'],
        &[
            "ccc", "cca", "cct", "cac", "caa", "cat", "ctc", "cta", "ctt", "acc", "aca", "act",
            "aac", "aaa", "aat", "atc", "ata", "att", "tcc", "tca",
        ],
    );
    lex_fixed_length_strings_using_chars_helper(
        10,
        &['c', 'a', 't'],
        &[
            "cccccccccc", "ccccccccca", "ccccccccct", "ccccccccac", "ccccccccaa", "ccccccccat",
            "cccccccctc", "ccccccccta", "cccccccctt", "cccccccacc", "cccccccaca", "cccccccact",
            "cccccccaac", "cccccccaaa", "cccccccaat", "cccccccatc", "cccccccata", "cccccccatt",
            "ccccccctcc", "ccccccctca",
        ],
    );
}
