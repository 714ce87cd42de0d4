use lazy_regex::RegexBuilder;
use protohackers::mob_in_the_middle::rewrite_boguscoin;

const TONY: &str = "7YWHMfk9JZe0LM0g1ZauHuiSxhI";

/// The same rewriting done with the regex engine, word by word.
fn with_regex(input: &str) -> String {
    let re = RegexBuilder::new(r"(^7[a-zA-Z0-9]{25,34})(\n|$)")
        .multi_line(true)
        .build()
        .unwrap();
    input
        .split(' ')
        .map(|word| {
            re.replacen(word, 1, |caps: &lazy_regex::Captures| {
                format!("{}{}", TONY, &caps[2])
            })
            .into_owned()
        })
        .collect::<Vec<_>>()
        .join(" ")
}

fn rewrite(s: &str) -> String {
    String::from_utf8(rewrite_boguscoin(s.as_bytes())).unwrap()
}

#[test]
fn replaces_addresses() {
    assert_eq!(
        rewrite("Hi alice, please send payment to 7iKDZEwPZSqIvDnHvVN2r0hUWXD5rHX\n"),
        format!("Hi alice, please send payment to {}\n", TONY)
    );
    assert_eq!(
        rewrite("7F1u3wSD5RbOHQmupo9nx4TnhQ Hello"),
        format!("{} Hello", TONY)
    );
    assert_eq!(
        rewrite("a 7adDzMcvT6mrdZaDaqBqzqXsV0rMZ2F b 7LOrwbDlS8NujgjddyogWgIM93MV5N2VR c"),
        format!("a {} b {} c", TONY, TONY)
    );
}

#[test]
fn leaves_non_addresses() {
    let too_short = "7abc";
    assert_eq!(rewrite(too_short), too_short);
    let too_long = format!("7{}", "a".repeat(35));
    assert_eq!(rewrite(&too_long), too_long);
    let not_seven = format!("8{}", "a".repeat(30));
    assert_eq!(rewrite(&not_seven), not_seven);
    let with_symbol = format!("7{}-", "a".repeat(30));
    assert_eq!(rewrite(&with_symbol), with_symbol);
    let prefixed = format!("x7{}", "a".repeat(30));
    assert_eq!(rewrite(&prefixed), prefixed);
    assert_eq!(rewrite(""), "");
    assert_eq!(rewrite("  "), "  ");
}

#[test]
fn boundaries_of_address_length() {
    let shortest = format!("7{}", "b".repeat(25));
    assert_eq!(rewrite(&shortest), TONY);
    let longest = format!("7{}\n", "C".repeat(34));
    assert_eq!(rewrite(&longest), format!("{}\n", TONY));
    let below = format!("7{}", "b".repeat(24));
    assert_eq!(rewrite(&below), below);
}

#[test]
fn agrees_with_regex() {
    let alphabet = ['7', 'a', 'Z', '3', ' ', '\n', '-', 'é'];
    let mut state: u64 = 0x2545_f491_4f6c_dd1d;
    for _ in 0..3000 {
        let mut s = String::new();
        let len = (state % 90) as usize;
        for _ in 0..len {
            state ^= state << 13;
            state ^= state >> 7;
            state ^= state << 17;
            let pick = (state % 100) as usize;
            let c = if pick < 70 { alphabet[(state >> 20) as usize % 4] } else { alphabet[(state >> 20) as usize % alphabet.len()] };
            s.push(c);
        }
        if state % 3 == 0 {
            s.push_str(&format!(" 7{} ", "x".repeat((state % 40) as usize)));
        }
        assert_eq!(rewrite(&s), with_regex(&s), "input {:?}", s);
        state = state.wrapping_mul(6364136223846793005).wrapping_add(1442695040888963407);
    }
}

#[test]
fn rewriting_twice_is_rewriting_once() {
    let lines = [
        "send to 7iKDZEwPZSqIvDnHvVN2r0hUWXD5rHX please\n".to_string(),
        format!("{} is mine", TONY),
        format!("x\n7{} 7{}\n", "q".repeat(30), "r".repeat(25)),
        "no addresses here\n".to_string(),
    ];
    for line in lines.iter() {
        let once = rewrite(line);
        assert_eq!(rewrite(&once), once);
    }
    assert_eq!(rewrite(&format!("{} is mine", TONY)), format!("{} is mine", TONY));
}
