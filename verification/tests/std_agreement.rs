use rustgraph::parse::{parse_edge_line, parse_edge_list, parse_number};
use rustgraph::GraphError;

/// A small generator of repeatable pseudo-random numbers.
struct Lcg(u64);

impl Lcg {
    fn next(&mut self) -> u64 {
        self.0 = self.0.wrapping_mul(6364136223846793005).wrapping_add(1442695040888963407);
        self.0 >> 33
    }

    fn below(&mut self, n: usize) -> usize {
        (self.next() % n as u64) as usize
    }
}

const ALPHABET: [char; 24] = [
    '0', '1', '2', '5', '9', ' ', ' ', ' ', '\t', '\r', '\u{b}', '\u{c}', '\u{85}', '\u{a0}',
    '\u{1680}', '\u{2003}', '\u{2028}', '\u{3000}', '\u{200b}', '+', '-', '#', 'x', '\u{663}',
];

fn random_line(rng: &mut Lcg, max_len: usize) -> String {
    let len = rng.below(max_len + 1);
    let mut s = String::new();
    for _ in 0..len {
        s.push(ALPHABET[rng.below(ALPHABET.len())]);
    }
    s
}

/// The same line read with std's `trim`, `split_whitespace` and `parse`.
fn read_with_std(line: &str, limit: u128) -> Result<Option<(u128, u128)>, GraphError> {
    let l = line.trim();
    if l.starts_with('#') {
        return Ok(None);
    }
    let mut fields = l.split_whitespace();
    let first = fields.next().ok_or(GraphError::MalformedLine)?;
    let second = fields.next().ok_or(GraphError::MalformedLine)?;
    if fields.next().is_some() {
        return Err(GraphError::MalformedLine);
    }
    let a: u128 = first.parse().map_err(|_| GraphError::ParseError)?;
    let b: u128 = second.parse().map_err(|_| GraphError::ParseError)?;
    if a > limit || b > limit {
        return Err(GraphError::VertexOutOfRange);
    }
    Ok(Some((a, b)))
}

fn read_text_with_std(text: &str, limit: u128) -> Result<Vec<(u128, u128)>, GraphError> {
    let mut edges = Vec::new();
    for line in text.lines() {
        if let Some(e) = read_with_std(line, limit)? {
            edges.push(e);
        }
    }
    Ok(edges)
}

#[test]
fn lines_are_read_as_std_reads_them() {
    let mut rng = Lcg(0x5eed);
    for _ in 0..20000 {
        let line = random_line(&mut rng, 9);
        let want = read_with_std(&line, u8::MAX as u128);
        let got = parse_edge_line::<u8>(&line).map(|e| e.map(|(a, b)| (a as u128, b as u128)));
        assert_eq!(got, want, "line {:?}", line);
    }
}

#[test]
fn wide_lines_are_read_as_std_reads_them() {
    let mut rng = Lcg(77);
    for _ in 0..5000 {
        let line = random_line(&mut rng, 60);
        let want = read_with_std(&line, u64::MAX as u128);
        let got = parse_edge_line::<u64>(&line).map(|e| e.map(|(a, b)| (a as u128, b as u128)));
        assert_eq!(got, want, "line {:?}", line);
    }
}

#[test]
fn numbers_are_read_as_std_reads_them() {
    let digits = ['0', '1', '3', '4', '9', '+', '-', ' ', 'a'];
    let mut rng = Lcg(4242);
    for _ in 0..20000 {
        let len = rng.below(45);
        let mut s = String::new();
        for _ in 0..len {
            // mostly digits, so that long numbers come up
            let pick = rng.below(40);
            s.push(if pick < digits.len() { digits[pick] } else { digits[pick % 5] });
        }
        assert_eq!(parse_number(&s), s.parse::<u128>().ok(), "field {:?}", s);
    }
}

#[test]
fn numbers_around_the_128_bit_limit() {
    let max = u128::MAX;
    for delta in 0..200u128 {
        let s = format!("{}", max - delta);
        assert_eq!(parse_number(&s), Some(max - delta));
        let with_sign = format!("+{}", max - delta);
        assert_eq!(parse_number(&with_sign), Some(max - delta));
        let padded = format!("000{}", max - delta);
        assert_eq!(parse_number(&padded), Some(max - delta));
    }
    // the numbers just past the limit agree with the limit in all but the last digit
    let stem = "34028236692093846346337460743176821145";
    for last in ['6', '7', '8', '9'] {
        let s = format!("{}{}", stem, last);
        assert_eq!(parse_number(&s), None);
        assert_eq!(s.parse::<u128>().ok(), None);
    }
    assert_eq!(parse_number(&format!("{}5", stem)), Some(max));
}

#[test]
fn texts_are_read_as_std_reads_them() {
    let mut rng = Lcg(31337);
    for _ in 0..20000 {
        let lines = rng.below(5);
        let mut text = String::new();
        for i in 0..lines {
            // mostly lines that are in order, so that later lines are reached
            if rng.below(4) == 0 {
                text.push_str(&random_line(&mut rng, 8));
            } else {
                text.push_str(&format!("{} {}", rng.below(300), rng.below(300)));
            }
            if i + 1 < lines || rng.below(2) == 0 {
                if rng.below(4) == 0 {
                    text.push('\r');
                }
                text.push('\n');
            }
        }
        let want = read_text_with_std(&text, u8::MAX as u128);
        let got = parse_edge_list::<u8>(&text)
            .map(|v| v.into_iter().map(|(a, b)| (a as u128, b as u128)).collect::<Vec<_>>());
        assert_eq!(got, want, "text {:?}", text);
    }
}
