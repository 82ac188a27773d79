use lzio::huffman::{Code, Hf, HfError, HfNode, HfTree};

fn build(freqs: &[u32]) -> HfTree {
    let mut hf = Hf::new();
    for &freq in freqs {
        hf.push(freq).unwrap();
    }
    hf.solve()
}

fn code_bits(code: Code) -> Vec<bool> {
    lzio::huffman::flatten_codes(&vec![code])
}

fn encode_all(tree: &HfTree, input: &[u32]) -> Vec<Vec<bool>> {
    let mut enc = tree.encoder(input.to_vec());
    let mut out = Vec::new();
    loop {
        match enc.next() {
            Ok(Some(code)) => out.push(code_bits(code)),
            Ok(None) => break,
            Err(e) => panic!("unexpected encode error: {:?}", e),
        }
    }
    out
}

fn decode_all(tree: &HfTree, bits: Vec<bool>) -> Vec<u32> {
    let mut dec = tree.decoder(bits);
    let mut out = Vec::new();
    loop {
        match dec.next() {
            Ok(Some(sym)) => out.push(sym),
            Ok(None) => break,
            Err(e) => panic!("unexpected decode error: {:?}", e),
        }
    }
    out
}

#[test]
fn test_huffman() {
    let mut hf = Hf::new();
    let freqs = [10, 4, 1, 7, 18, 1, 5, 25];
    for freq in freqs.into_iter() {
        hf.push(freq).unwrap();
    }

    let tree = hf.solve();

    let input = [0u32, 1, 2, 5];
    let encoded = encode_all(&tree, &input);
    let bits: Vec<bool> = encoded.into_iter().flatten().collect();
    let output = decode_all(&tree, bits);

    assert_eq!(&input, output.as_slice());
}

#[test]
fn prefix_free_codes() {
    let tree = build(&[10, 4, 1, 7, 18, 1, 5, 25]);
    let codes = encode_all(&tree, &[0, 1, 2, 3, 4, 5, 6, 7]);
    assert_eq!(codes.len(), 8);
    for (i, a) in codes.iter().enumerate() {
        assert!(!a.is_empty());
        for (j, b) in codes.iter().enumerate() {
            if i != j {
                assert!(!(a.len() <= b.len() && &b[..a.len()] == a.as_slice()));
            }
        }
    }
}

#[test]
fn degenerate_zero_symbols() {
    let tree = build(&[]);
    // empty encoder output on empty input
    assert_eq!(encode_all(&tree, &[]).len(), 0);
    // decoding anything yields a clean end at once
    assert_eq!(decode_all(&tree, vec![true, false]).len(), 0);
}

#[test]
fn degenerate_one_symbol() {
    let tree = build(&[42]);
    let codes = encode_all(&tree, &[0]);
    assert_eq!(codes, vec![Vec::<bool>::new()]);
}

#[test]
fn encoder_symbol_out_of_range() {
    let tree = build(&[3, 1]);
    let mut enc = tree.encoder(vec![2]);
    assert!(matches!(enc.next(), Err(HfError::SymbolOutOfRange)));
}

#[test]
fn decoder_truncated_input() {
    // codes: 2 -> [1]; 0 -> [0,0]; 1 -> [0,1]
    let tree = build(&[1, 1, 4]);
    let mut dec = tree.decoder(vec![false]);
    assert_eq!(dec.next(), Err(HfError::TruncatedInput));

    // a clean stream still ends with Ok(None)
    let mut dec = tree.decoder(vec![false, false]);
    assert_eq!(dec.next(), Ok(Some(0)));
    assert_eq!(dec.next(), Ok(None));
}

#[test]
fn deterministic_builds() {
    let freqs = [10, 4, 1, 7, 18, 1, 5, 25];
    let t1 = build(&freqs);
    let t2 = build(&freqs);
    let syms: Vec<u32> = (0..8).collect();
    assert_eq!(encode_all(&t1, &syms), encode_all(&t2, &syms));
}

#[test]
fn push_returns_sequential_ids() {
    let mut hf = Hf::new();
    assert_eq!(hf.push(5).unwrap(), 0);
    assert_eq!(hf.push(1).unwrap(), 1);
    assert_eq!(hf.push(9).unwrap(), 2);
}

#[test]
fn push_fails_when_id_space_is_full() {
    let mut hf = Hf::new();
    for _ in 0..lzio::huffman::MAX_SYMS {
        hf.push(1).unwrap();
    }
    assert_eq!(hf.push(1), Err(HfError::CapacityExhausted));
}

#[test]
fn estimate_memory_formula() {
    let hfnode = std::mem::size_of::<HfNode>();
    let code = std::mem::size_of::<Code>();
    // one symbol: one leaf, one heap entry, no table bytes
    let one = Hf::estimate_memory(1);
    let heapdata = one - hfnode;
    // two symbols: three nodes, two heap entries, a two-entry table
    assert_eq!(Hf::estimate_memory(2), 3 * hfnode + 2 * heapdata + 2 * code);
    assert_eq!(Hf::estimate_memory(0), 0);
    assert_eq!(HfTree::estimate_memory(3, 2), 2 * code);
}
