use systile::automaton::TensorAutomaton;

/// Big-endian bits of `n` (most significant first).
fn bits(n: u32) -> Vec<usize> {
    if n == 0 {
        return vec![0];
    }
    let width = 32 - n.leading_zeros();
    (0..width).rev().map(|i| ((n >> i) & 1) as usize).collect()
}

#[test]
fn mod_three_decides_divisibility() {
    let dfa = TensorAutomaton::mod_k(3);
    assert_eq!(dfa.num_states(), 3);
    assert_eq!(dfa.num_symbols(), 2);
    for n in 0..=20u32 {
        let b = bits(n);
        assert_eq!(dfa.accepts(&b), n % 3 == 0, "n={n}");
        assert_eq!(dfa.run(&b), (n % 3) as usize, "n={n}");
    }
}

#[test]
fn batch_matches_one_at_a_time() {
    let dfa = TensorAutomaton::mod_k(5);
    let inputs: Vec<Vec<usize>> = (0..=40u32).map(bits).collect();
    let refs: Vec<&[usize]> = inputs.iter().map(|v| v.as_slice()).collect();
    let verdicts = dfa.batch_accepts(&refs);
    let states = dfa.run_batch(&refs);
    assert_eq!(verdicts.len(), 41);
    for (n, input) in inputs.iter().enumerate() {
        assert_eq!(verdicts[n], n % 5 == 0, "n={n}");
        assert_eq!(verdicts[n], dfa.accepts(input));
        assert_eq!(states[n], dfa.run(input));
    }
}

#[test]
fn empty_input_stays_at_start() {
    let dfa = TensorAutomaton::mod_k(4);
    let empty: [usize; 0] = [];
    assert_eq!(dfa.run(&empty), 0);
    assert!(dfa.accepts(&empty));
    assert!(dfa.is_accepting(0));
    assert!(!dfa.is_accepting(1));
}

#[test]
fn explicit_table_parity_automaton() {
    // Accepts strings over {0, 1} with an even number of ones.
    let dfa = TensorAutomaton::new(0, vec![true, false], vec![vec![0, 1], vec![1, 0]]);
    assert!(dfa.accepts(&[1, 1, 0]));
    assert!(!dfa.accepts(&[1, 0, 0]));
    assert_eq!(dfa.run(&[1, 0, 1, 1]), 1);
    let m = dfa.transition(1);
    assert_eq!(m.to_dense(), vec![0, 1, 1, 0]);
    let m0 = dfa.transition(0);
    assert_eq!(m0.to_dense(), vec![1, 0, 0, 1]);
}

#[test]
fn empty_batch_gives_nothing() {
    let dfa = TensorAutomaton::mod_k(3);
    let none: Vec<&[usize]> = Vec::new();
    assert!(dfa.run_batch(&none).is_empty());
    assert!(dfa.batch_accepts(&none).is_empty());
}
