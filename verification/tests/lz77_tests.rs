use lzio::lz77::{self, Backref, LzToken, Window};

#[test]
fn substrmatch() {
    let source = [0, 1, 1, 0, 0];

    assert_eq!(
        lz77::lzmatch(&source, &[0, 0]),
        Backref {
            offset: 2,
            length: 2
        }
    );
    assert_eq!(
        lz77::lzmatch(&source, &[1, 1, 0]),
        Backref {
            offset: 4,
            length: 3
        }
    );
}

#[test]
fn strmatch_counts_common_prefix() {
    assert_eq!(lz77::strmatch(&[1, 2, 3], &[1, 2, 4]), 2);
    assert_eq!(lz77::strmatch(&[], &[1]), 0);
    assert_eq!(lz77::strmatch(&[7, 7], &[7, 7]), 2);
}

#[test]
fn naive_matches_smallest_offset_on_ties() {
    // both offset 1 and offset 3 match [5] for one byte; the earlier wins
    let window = [5, 9, 9, 5];
    assert_eq!(
        lz77::naive_substrmatch(&window, &[5, 4]),
        Backref {
            offset: 1,
            length: 1
        }
    );
}

#[test]
fn naive_no_match_at_all() {
    assert_eq!(
        lz77::naive_substrmatch(&[1, 2, 3], &[4]),
        Backref {
            offset: 0,
            length: 0
        }
    );
}

#[test]
fn lz77_token_stream() {
    let tokens = lz77::lz77(&[20, 0, 20, 0]);
    assert_eq!(
        tokens,
        vec![
            LzToken::Literal(20),
            LzToken::Literal(0),
            LzToken::Backref(Backref {
                offset: 2,
                length: 2
            }),
        ]
    );

    let tokens = lz77::lz77(&[40, 10, 20, 50, 10, 20]);
    assert_eq!(
        tokens,
        vec![
            LzToken::Literal(40),
            LzToken::Literal(10),
            LzToken::Literal(20),
            LzToken::Literal(50),
            LzToken::Backref(Backref {
                offset: 3,
                length: 2
            }),
        ]
    );
}

#[test]
fn lz77_empty_input() {
    assert_eq!(lz77::lz77(&[]), vec![]);
}

#[test]
fn lz77_tokens_expand_back() {
    let inputs: [&[u8]; 4] = [
        &[20, 0, 20, 0],
        &[40, 10, 20, 50, 10, 20],
        &[7, 7, 7, 7, 7, 7, 7],
        &[1, 2, 3, 1, 2, 3, 1, 2, 4],
    ];
    for source in inputs {
        let mut out: Vec<u8> = Vec::new();
        for token in lz77::lz77(source) {
            match token {
                LzToken::Literal(b) => out.push(b),
                LzToken::Backref(m) => {
                    assert!(1 <= m.offset && m.offset <= out.len() && m.length <= m.offset);
                    let start = out.len() - m.offset;
                    for i in start..start + m.length {
                        let b = out[i];
                        out.push(b);
                    }
                }
            }
        }
        assert_eq!(out.as_slice(), source);
    }
}

#[test]
fn window_bounds() {
    let w = Window::new(vec![1, 2, 3], 1).unwrap();
    assert_eq!(w.data(), &[2, 3]);

    assert!(Window::new(vec![1, 2, 3], 4).is_none());

    // a live region over 32 KiB is refused
    let big = vec![0u8; 32 * 1024 + 1];
    assert!(Window::new(big, 0).is_none());
    let big = vec![0u8; 32 * 1024 + 1];
    assert!(Window::new(big, 1).is_some());
}
