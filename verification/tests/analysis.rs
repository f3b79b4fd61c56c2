use many_time_pad::analysis::{
    is_space, recover_key, recover_partial_key, sort_by_length, track_spaces, xor,
};

fn encrypt(plain: &[u8], key: &[u8]) -> Vec<u8> {
    plain.iter().zip(key.iter()).map(|(p, k)| p ^ k).collect()
}

#[test]
fn is_space_accepts_zero_and_letters_only() {
    assert!(is_space(&0x00));
    assert!(is_space(&b'a'));
    assert!(is_space(&b'z'));
    assert!(is_space(&b'A'));
    assert!(is_space(&b'Z'));
    assert!(!is_space(&0x01));
    assert!(!is_space(&0x20));
    assert!(!is_space(&0x40));
    assert!(!is_space(&0x5b));
    assert!(!is_space(&0x60));
    assert!(!is_space(&0x7b));
    assert!(!is_space(&0xff));
}

#[test]
fn is_space_counts_fifty_three_bytes() {
    let n = (0u8..=255).filter(|c| is_space(c)).count();
    assert_eq!(n, 53);
}

#[test]
fn xor_truncates_to_the_shorter() {
    assert_eq!(xor(&vec![1, 2, 3, 4], &vec![1, 1]), vec![0, 3]);
    assert_eq!(xor(&vec![0xff], &vec![0x0f, 9, 9]), vec![0xf0]);
}

#[test]
fn xor_length_is_the_minimum() {
    for a in 0..6usize {
        for b in 0..6usize {
            let r = xor(&vec![0x55; a], &vec![0xaa; b]);
            assert_eq!(r.len(), a.min(b));
            assert!(r.iter().all(|c| *c == 0xff));
        }
    }
}

#[test]
fn xor_of_empty_is_empty() {
    assert_eq!(xor(&vec![], &vec![1, 2, 3]), Vec::<u8>::new());
    assert_eq!(xor(&vec![1, 2, 3], &vec![]), Vec::<u8>::new());
    assert_eq!(xor(&vec![], &vec![]), Vec::<u8>::new());
}

#[test]
fn track_spaces_marks_each_probable_space_once() {
    let counter = track_spaces(vec![0x00, 0x01, b'q', 0x20, b'Q']);
    let mut found: Vec<(usize, usize)> = counter.into_iter().collect();
    found.sort();
    assert_eq!(found, vec![(0, 1), (2, 1), (4, 1)]);
    assert!(track_spaces(vec![]).is_empty());
}

#[test]
fn attack_at_dawn_and_dusk_share_their_prefix() {
    let key: Vec<u8> = (0..14u32).map(|i| ((i * 29 + 7) % 256) as u8).collect();
    let dawn = encrypt(b"attack at dawn", &key);
    let dusk = encrypt(b"attack at dusk", &key);
    let mut marks: Vec<usize> = track_spaces(xor(&dawn, &dusk)).into_keys().collect();
    marks.sort();
    assert_eq!(marks, vec![0, 1, 2, 3, 4, 5, 6, 7, 8, 9, 10]);
    let mut swapped: Vec<usize> = track_spaces(xor(&dusk, &dawn)).into_keys().collect();
    swapped.sort();
    assert_eq!(swapped, marks);
    // With two ciphertexts every shared position counts as a space, so the
    // key is right exactly where both plaintexts do hold a space.
    let recovered = recover_key(vec![dawn, dusk]);
    assert_eq!(
        recovered,
        vec![
            Some(70),
            Some(112),
            Some(21),
            Some(31),
            Some(56),
            Some(211),
            Some(181),
            Some(147),
            Some(187),
            Some(12),
            Some(109),
            None,
            None,
            None,
        ]
    );
    assert_eq!(recovered[6], Some(key[6]));
    assert_eq!(recovered[9], Some(key[9]));
}

#[test]
fn partial_key_later_ciphertext_wins() {
    assert_eq!(
        recover_partial_key(&vec![vec![0x00], vec![0x41]]),
        vec![Some(0x61)]
    );
    assert_eq!(
        recover_partial_key(&vec![vec![0x41], vec![0x00]]),
        vec![Some(0x20)]
    );
}

#[test]
fn partial_key_needs_every_other_ciphertext() {
    let cts = vec![vec![0x00, 5], vec![0x41, 5, 9], vec![0x62, 6]];
    assert_eq!(recover_partial_key(&cts), vec![Some(0x20), None]);
}

#[test]
fn partial_key_of_one_ciphertext_is_unknown() {
    assert_eq!(
        recover_partial_key(&vec![vec![1, 2, 3]]),
        vec![None, None, None]
    );
}

#[test]
fn partial_key_finds_the_space_among_letters() {
    let k = 0x5c;
    let cts = vec![vec![b' ' ^ k], vec![b'a' ^ k], vec![b'b' ^ k]];
    assert_eq!(recover_partial_key(&cts), vec![Some(k)]);
    let cts = vec![vec![b'a' ^ k], vec![b' ' ^ k], vec![b'b' ^ k]];
    assert_eq!(recover_partial_key(&cts), vec![Some(k)]);
}

#[test]
fn partial_key_has_the_length_of_the_first() {
    let cts = vec![vec![1, 2], vec![1, 2, 3, 4], vec![1, 2, 3]];
    assert_eq!(recover_partial_key(&cts).len(), 2);
    let cts = vec![vec![], vec![1, 2, 3, 4]];
    assert_eq!(recover_partial_key(&cts), Vec::<Option<u8>>::new());
}

#[test]
fn sort_by_length_is_stable() {
    let sorted = sort_by_length(vec![
        vec![3, 3, 3],
        vec![1],
        vec![2, 2],
        vec![9],
        vec![],
        vec![8, 8],
    ]);
    assert_eq!(
        sorted,
        vec![
            vec![],
            vec![1],
            vec![9],
            vec![2, 2],
            vec![8, 8],
            vec![3, 3, 3],
        ]
    );
    assert_eq!(sort_by_length(vec![]), Vec::<Vec<u8>>::new());
}

#[test]
fn recover_key_of_nothing_is_empty() {
    assert_eq!(recover_key(vec![]), Vec::<Option<u8>>::new());
}

#[test]
fn recover_key_of_one_ciphertext_is_empty() {
    assert_eq!(recover_key(vec![vec![1, 2, 3]]), Vec::<Option<u8>>::new());
}

#[test]
fn recover_key_tolerates_empty_ciphertexts() {
    assert_eq!(
        recover_key(vec![vec![], vec![1, 2, 3], vec![1, 2, 4]]),
        vec![Some(33), Some(34), None]
    );
    assert_eq!(recover_key(vec![vec![], vec![]]), Vec::<Option<u8>>::new());
    assert_eq!(
        recover_key(vec![vec![], vec![1, 2]]),
        Vec::<Option<u8>>::new()
    );
}

#[test]
fn recover_key_keeps_the_given_order_among_equal_lengths() {
    assert_eq!(
        recover_key(vec![vec![0x00, 0x10], vec![0x41, 0x10]]),
        vec![Some(97), Some(48)]
    );
    assert_eq!(
        recover_key(vec![vec![0x41, 0x10], vec![0x00, 0x10]]),
        vec![Some(32), Some(48)]
    );
}

#[test]
fn recover_key_stitches_the_stretches() {
    // Sorted: [0x42], [0x00, 0x10], [0x41, 0x10, 0x33]. The first byte comes
    // from all three, the second from the two that reach it, and the third
    // is covered by one ciphertext only.
    assert_eq!(
        recover_key(vec![vec![0x41, 0x10, 0x33], vec![0x00, 0x10], vec![0x42]]),
        vec![Some(32), Some(48)]
    );
}

#[test]
fn recover_key_is_as_long_as_the_second_longest() {
    let lengths = [[5usize, 0, 9, 3], [4, 4, 4, 4], [0, 0, 0, 1], [7, 2, 7, 1]];
    for row in lengths {
        let cts: Vec<Vec<u8>> = row.iter().map(|n| vec![0x33; *n]).collect();
        let mut sorted = row.to_vec();
        sorted.sort();
        assert_eq!(recover_key(cts).len(), sorted[2]);
    }
}

#[test]
fn recover_key_recovers_most_of_a_reused_key() {
    let key: Vec<u8> = (0..40u32).map(|i| ((i * 37 + 11) % 256) as u8).collect();
    let plaintexts: [&[u8]; 5] = [
        b"the quick brown fox jumps over",
        b"a man a plan a canal panama",
        b"we all live in a yellow submarine now",
        b"to be or not to be that is",
        b"hello world",
    ];
    let ciphertexts: Vec<Vec<u8>> = plaintexts.iter().map(|p| encrypt(p, &key)).collect();
    let recovered = recover_key(ciphertexts);
    assert_eq!(
        recovered,
        vec![
            None,
            Some(48),
            Some(85),
            Some(122),
            None,
            Some(196),
            Some(233),
            Some(14),
            Some(51),
            Some(88),
            None,
            Some(162),
            Some(199),
            None,
            Some(17),
            Some(54),
            Some(91),
            None,
            Some(165),
            Some(202),
            Some(239),
            None,
            None,
            Some(94),
            None,
            Some(168),
            None,
            None,
            None,
            Some(110),
        ]
    );
    let right = recovered
        .iter()
        .enumerate()
        .filter(|(i, slot)| **slot == Some(key[*i]))
        .count();
    assert_eq!(right, 18);
    assert!(2 * right > recovered.len());
}

#[test]
fn recover_key_finds_a_space_among_different_letters() {
    let key = [0x5c, 0xa7, 0x13, 0xee];
    let plaintexts: [&[u8]; 4] = [b"q", b"ab d", b"cdeX", b"efx "];
    let ciphertexts: Vec<Vec<u8>> = plaintexts.iter().map(|p| encrypt(p, &key)).collect();
    // Positions 2 and 3 lie beyond the shortest ciphertext; each holds one
    // space and two different letters.
    let expected = vec![None, None, Some(key[2]), Some(key[3])];
    assert_eq!(recover_key(ciphertexts.clone()), expected);
    let shuffled = vec![
        ciphertexts[2].clone(),
        ciphertexts[0].clone(),
        ciphertexts[3].clone(),
        ciphertexts[1].clone(),
    ];
    assert_eq!(recover_key(shuffled), expected);
}
