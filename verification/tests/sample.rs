use jsonl_peek::lines::{LineFramer, LineReader};
use jsonl_peek::rng::{Reservoir, SplitMix64};
use jsonl_peek::sample::{head, Head, LineSample};

const BASIC: &str = "{\"id\":1}\n\n{\"id\":2}\nnot json\n   \n{\"id\":3}";

fn sample(input: &str, n: usize, seed: u64) -> Vec<(u64, String)> {
    let mut sample = LineSample::new(n, seed);
    let mut reader = LineReader::new(input.as_bytes());
    while let Some(line) = reader.read_line() {
        sample.add_line(&line);
    }
    sample
        .into_lines()
        .into_iter()
        .map(|(number, bytes)| (number, String::from_utf8(bytes).unwrap()))
        .collect()
}

#[test]
fn head_takes_the_first_lines() {
    let contents = |n| -> Vec<String> {
        head(BASIC.as_bytes(), n)
            .iter()
            .map(|line| line.as_str().unwrap().to_string())
            .collect()
    };
    assert_eq!(contents(2), ["{\"id\":1}", ""]);
    assert_eq!(contents(0), Vec::<String>::new());
    assert_eq!(contents(100).len(), 6);
    assert_eq!(contents(6)[5], "{\"id\":3}");
}

#[test]
fn a_sample_that_covers_the_input_holds_every_line_that_is_not_blank() {
    assert_eq!(
        sample(BASIC, 10, 1),
        [
            (1, "{\"id\":1}".to_string()),
            (3, "{\"id\":2}".to_string()),
            (4, "not json".to_string()),
            (6, "{\"id\":3}".to_string()),
        ]
    );
}

#[test]
fn a_sample_is_in_the_order_of_the_input() {
    let input: String = (0..300).map(|i| format!("{i}\n")).collect();
    let got = sample(&input, 20, 42);
    assert_eq!(got.len(), 20);
    assert!(got.windows(2).all(|pair| pair[0].0 < pair[1].0));
    assert!(got.iter().all(|(number, text)| *text == (number - 1).to_string()));
    assert_eq!(got, sample(&input, 20, 42));
}

#[test]
fn a_sample_holds_what_the_reservoir_holds() {
    let input: String = (0..100).map(|i| format!("{i}\n")).collect();
    let mut rng = SplitMix64::new(9);
    let mut reservoir = Reservoir::new(5);
    for i in 1..=100u64 {
        reservoir.add(i, &mut rng);
    }
    let mut want = reservoir.into_vec();
    want.sort_unstable();
    let got: Vec<u64> = sample(&input, 5, 9).into_iter().map(|(number, _)| number).collect();
    assert_eq!(got, want);
}

#[test]
fn an_empty_sample_is_empty() {
    let mut sample = LineSample::new(0, 3);
    let mut framer = LineFramer::new();
    sample.add_line(&framer.frame(b"1\n"));
    assert!(sample.into_lines().is_empty());
}

#[test]
fn head_goes_on_until_its_lines_are_used_up() {
    let mut head = Head::new(2);
    assert!(head.goes_on());
    assert!(head.take());
    assert!(head.goes_on());
    assert!(head.take());
    assert!(!head.goes_on());
    assert!(!head.take());
    assert!(!head.goes_on());
    assert!(!Head::new(0).goes_on());
}

#[test]
fn a_sample_has_as_many_lines_as_it_may() {
    let all = ["{\"id\":1}", "{\"id\":2}", "not json", "{\"id\":3}"];
    for n in 0..7 {
        for seed in 0..20 {
            let got = sample(BASIC, n, seed);
            assert_eq!(got.len(), n.min(4));
            assert_eq!(got, sample(BASIC, n, seed));
            assert!(got.windows(2).all(|pair| pair[0].0 < pair[1].0));
            assert!(got.iter().all(|(_, text)| all.contains(&text.as_str())));
        }
    }
}

#[test]
fn a_large_sample_is_sorted_by_line_number() {
    let input: String = (0..3000).map(|i| format!("{i}\n")).collect();
    for n in [1, 2, 3, 7, 1000, 2999] {
        let got = sample(&input, n, 5);
        assert_eq!(got.len(), n);
        assert!(got.windows(2).all(|pair| pair[0].0 < pair[1].0));
        assert!(got.iter().all(|(number, text)| *text == (number - 1).to_string()));
    }
}
