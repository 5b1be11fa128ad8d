use ball_maze::encoder::encode_actions;

/// Expands the macro references of an encoded string back into the
/// original text: the part before the first `;` is the rewritten string,
/// the `;`-separated rest are the definitions, referred to by digits.
fn decode(encoded: &str) -> String {
    let parts: Vec<&str> = encoded.split(';').collect();
    let main = parts[0];
    let defs = &parts[1..];
    let mut out = String::new();
    for c in main.chars() {
        let mut expanded = false;
        if let Some(d) = c.to_digit(10) {
            let d = d as usize;
            if d >= 1 && d <= defs.len() {
                out.push_str(defs[d - 1]);
                expanded = true;
            }
        }
        if !expanded {
            out.push(c);
        }
    }
    out
}

#[test]
fn test_encoding() {
    let s = String::from("DDDDRRDDDDDUUUUULLUUUULLLLUUDDRRRRDDDDRRDDDDDDDDDDDDLLUUUULLUUUUULURUULLLLRRRRDDLDRRRDDDDDLLLLUUUULRDDDDRRRRDDDDLLUDRRUUUULLUUUUULULLLLLUULLLLLLLLDDDDDDRRRRUDRRRRRRDLLDDDRRDDLLLLLLUUUULLLLUUUUUUUURRRRRRRRDRDRRRRRDRRDDDDDDDDDRRUUUUUUUUUUUULLUUUULLLLLLLLUUL");
    let start_time = std::time::Instant::now();
    let ans = encode_actions(&s);
    assert!(!ans.is_empty());
    assert!(ans.len() < s.len());

    println!("{:?}", ans);
    println!("Time: {:?}", start_time.elapsed());
}

#[test]
fn encoding_round_trips() {
    let cases = [
        "",
        "L",
        "LRUD",
        "DDDDRRDDDDDUUUUULLUUUULLLLUUDDRRRRDDDDRRDDDDDD",
        "ABABABABAB",
        "UUUUDDDDUUUUDDDD",
        "LLLLLLLLLLLLLLLLLLLLLLLLLLLLLLLL",
    ];
    for s in cases {
        let e = encode_actions(s);
        assert!(e.len() <= s.len(), "{} must not grow", s);
        assert_eq!(decode(&e), s, "decoding {} must restore {}", e, s);
    }
}

#[test]
fn encoding_picks_the_most_profitable_macro() {
    // "AB" five times: replacing it by one digit saves the most
    assert_eq!(encode_actions("ABABABABAB"), "11111;AB");
}

#[test]
fn encoding_leaves_unprofitable_input_alone() {
    // nothing repeats enough to pay for a macro definition
    assert_eq!(encode_actions("LRUD"), "LRUD");
    assert_eq!(encode_actions(""), "");
    assert_eq!(encode_actions("LLRR"), "LLRR");
}
