use std::collections::HashMap;
use vstd::prelude::*;

verus! {

/// Whether the XOR of two plaintext bytes suggests that one of them was a
/// space: the value is zero (two equal bytes) or an ASCII letter (a space
/// against a letter of the other case).
pub open spec fn probable_space(c: u8) -> bool {
    c == 0 || (0x61 <= c <= 0x7a) || (0x41 <= c <= 0x5a)
}

/// The XOR of the common prefix of two byte strings.
pub open spec fn xor_bytes(a: Seq<u8>, b: Seq<u8>) -> Seq<u8> {
    Seq::new(
        if a.len() <= b.len() { a.len() } else { b.len() },
        |i: int| a[i] ^ b[i],
    )
}

/// The positions of an XOR stream that are probable spaces, each mapped to
/// the single observation it stands for.
pub open spec fn space_marks(text: Seq<u8>) -> Map<usize, usize> {
    Map::new(
        |i: usize| i < text.len() && probable_space(text[i as int]),
        |i: usize| 1usize,
    )
}

/// Classifies one byte of an XOR stream as a probable space.
pub fn is_space(c: &u8) -> (r: bool)
    ensures
        r == probable_space(*c),
{
    *c == 0x00 || (*c >= 0x61 && *c <= 0x7a) || (*c >= 0x41 && *c <= 0x5a)
}

/// XORs two byte strings position by position, up to the end of the shorter.
pub fn xor(a: &Vec<u8>, b: &Vec<u8>) -> (r: Vec<u8>)
    ensures
        r@ == xor_bytes(a@, b@),
        r.len() == if a.len() <= b.len() { a.len() } else { b.len() },
{
    let n: usize = if a.len() <= b.len() { a.len() } else { b.len() };
    let mut r: Vec<u8> = Vec::new();
    let mut i: usize = 0;
    while i < n
        invariant
            i <= n,
            n <= a.len(),
            n <= b.len(),
            r@ == Seq::new(i as nat, |j: int| a@[j] ^ b@[j]),
        decreases n - i,
    {
        r.push(a[i] ^ b[i]);
        i += 1;
        assert(r@ =~= Seq::new(i as nat, |j: int| a@[j] ^ b@[j]));
    }
    r
}

/// Records every position of an XOR stream that is a probable space.
pub fn track_spaces(text: Vec<u8>) -> (counter: HashMap<usize, usize>)
    ensures
        counter@ == space_marks(text@),
{
    broadcast use vstd::std_specs::hash::group_hash_axioms;
    let mut counter: HashMap<usize, usize> = HashMap::new();
    let mut i: usize = 0;
    while i < text.len()
        invariant
            i <= text.len(),
            counter@ == space_marks(text@.take(i as int)),
        decreases text.len() - i,
    {
        if is_space(&text[i]) {
            counter.insert(i, 1);
        }
        i += 1;
        assert(counter@ =~= space_marks(text@.take(i as int)));
    }
    assert(text@.take(text.len() as int) == text@);
    counter
}

/// The byte strings held by a list of ciphertexts.
pub open spec fn texts(ciphertexts: Seq<Vec<u8>>) -> Seq<Seq<u8>> {
    Seq::new(ciphertexts.len(), |i: int| ciphertexts[i]@)
}

/// Position `p` exists in both strings and their XOR there is a probable
/// space.
pub open spec fn flagged(main: Seq<u8>, other: Seq<u8>, p: int) -> bool {
    0 <= p < main.len() && p < other.len() && probable_space(main[p] ^ other[p])
}

/// Ciphertext `m` shows a probable space at position `p` against every other
/// ciphertext, of which there is at least one.
pub open spec fn space_at(cts: Seq<Seq<u8>>, m: int, p: int) -> bool {
    cts.len() >= 2 && forall|s: int|
        0 <= s < cts.len() && s != m ==> #[trigger] flagged(cts[m], cts[s], p)
}

/// The last ciphertext before `bound` that shows a space at position `p`
/// against every other one, or -1 where there is none.
pub open spec fn last_witness(cts: Seq<Seq<u8>>, p: int, bound: int) -> int
    decreases bound,
{
    if bound <= 0 {
        -1
    } else if space_at(cts, bound - 1, p) {
        bound - 1
    } else {
        last_witness(cts, p, bound - 1)
    }
}

/// The key byte at position `p` as far as the ciphertexts before `bound`
/// decide it: the byte that turns the last witness's ciphertext byte into a
/// space.
pub open spec fn key_slot(cts: Seq<Seq<u8>>, p: int, bound: int) -> Option<u8> {
    let m = last_witness(cts, p, bound);
    if m < 0 {
        None
    } else {
        Some(0x20u8 ^ cts[m][p])
    }
}

/// The partial key that a set of ciphertexts yields over the length of the
/// first of them.
pub open spec fn partial_key(cts: Seq<Seq<u8>>) -> Seq<Option<u8>> {
    Seq::new(cts[0].len(), |p: int| key_slot(cts, p, cts.len() as int))
}

/// How many of the ciphertexts before `upto`, other than `m` itself, flag
/// position `p` of ciphertext `m`.
spec fn flag_count(cts: Seq<Seq<u8>>, m: int, p: int, upto: int) -> nat
    decreases upto,
{
    if upto <= 0 {
        0
    } else {
        let rest = flag_count(cts, m, p, upto - 1);
        if upto - 1 != m && flagged(cts[m], cts[upto - 1], p) {
            rest + 1
        } else {
            rest
        }
    }
}

/// The number of ciphertexts before `upto` other than `m`.
spec fn others_before(m: int, upto: int) -> int {
    if 0 <= m < upto {
        upto - 1
    } else {
        upto
    }
}

/// A flag count never exceeds the number of other ciphertexts seen, and
/// reaches it exactly when every one of them flags the position.
proof fn lemma_flag_count_full(cts: Seq<Seq<u8>>, m: int, p: int, upto: int)
    requires
        0 <= upto <= cts.len(),
    ensures
        flag_count(cts, m, p, upto) <= others_before(m, upto),
        flag_count(cts, m, p, upto) == others_before(m, upto) <==> (forall|s: int|
            0 <= s < upto && s != m ==> #[trigger] flagged(cts[m], cts[s], p)),
    decreases upto,
{
    if upto > 0 {
        lemma_flag_count_full(cts, m, p, upto - 1);
    }
}

/// The flags counted at position `q` of ciphertext `m` in the middle of a
/// pass over ciphertext `s`: those of the ciphertexts before `s`, and that
/// of `s` itself once the pass has gone beyond `q`, which it has at `p`.
spec fn tally(cts: Seq<Seq<u8>>, m: int, q: usize, s: int, p: usize) -> nat {
    if q < p {
        flag_count(cts, m, q as int, s + 1)
    } else {
        flag_count(cts, m, q as int, s)
    }
}

/// A counter has an entry for position `q` exactly where `count` is above
/// zero, and the entry is `count`.
spec fn records(counter: Map<usize, usize>, q: usize, count: nat) -> bool {
    (counter.contains_key(q) <==> count > 0) && (counter.contains_key(q) ==> counter[q] == count)
}

/// A counter records the tally of every position.
spec fn holds_tally(
    counter: Map<usize, usize>,
    cts: Seq<Seq<u8>>,
    m: int,
    s: int,
    p: usize,
) -> bool {
    forall|q: usize|
        #![trigger tally(cts, m, q, s, p)]
        records(counter, q, tally(cts, m, q, s, p))
}

/// A pass over ciphertext `s` that has gone beyond every position that `s`
/// flags, or that leaves `s` out as the main ciphertext itself, has counted
/// what the pass over the next ciphertext starts from.
proof fn lemma_tally_next(counter: Map<usize, usize>, cts: Seq<Seq<u8>>, m: int, s: int, p: usize)
    requires
        holds_tally(counter, cts, m, s, p),
        forall|q: usize|
            #![trigger tally(cts, m, q, s, p)]
            q >= p ==> s == m || !flagged(cts[m], cts[s], q as int),
    ensures
        holds_tally(counter, cts, m, s + 1, 0),
{
    assert forall|q: usize| #![trigger tally(cts, m, q, s + 1, 0)]
        records(counter, q, tally(cts, m, q, s + 1, 0)) by {
        assert(tally(cts, m, q, s, p) == tally(cts, m, q, s + 1, 0));
    }
}

/// Counts, for each position of ciphertext `main_index`, how many of the
/// other ciphertexts show a probable space there.
fn count_spaces(ciphertexts: &Vec<Vec<u8>>, main_index: usize) -> (counter: HashMap<usize, usize>)
    requires
        main_index < ciphertexts.len(),
    ensures
        forall|q: usize| #![trigger counter@.contains_key(q)]
            records(
                counter@,
                q,
                flag_count(
                    texts(ciphertexts@),
                    main_index as int,
                    q as int,
                    ciphertexts.len() as int,
                ),
            ),
{
    broadcast use vstd::std_specs::hash::group_hash_axioms;
    let ghost cts = texts(ciphertexts@);
    let ghost m = main_index as int;
    let n: usize = ciphertexts.len();
    let main_ciphertext = &ciphertexts[main_index];
    let mut main_counter: HashMap<usize, usize> = HashMap::new();
    let mut secondary_index: usize = 0;
    while secondary_index < n
        invariant
            secondary_index <= n,
            n == ciphertexts.len(),
            main_index < n,
            cts == texts(ciphertexts@),
            m == main_index as int,
            main_ciphertext@ == cts[m],
            holds_tally(main_counter@, cts, m, secondary_index as int, 0),
        decreases n - secondary_index,
    {
        let ghost s = secondary_index as int;
        let mut index: usize = 0;
        if main_index != secondary_index {
            let xored = xor(main_ciphertext, &ciphertexts[secondary_index]);
            let len: usize = xored.len();
            let counter = track_spaces(xored);
            while index < len
                invariant
                    index <= len,
                    0 <= s < cts.len(),
                    s != m,
                    0 <= m < cts.len(),
                    cts.len() <= usize::MAX,
                    len == xor_bytes(cts[m], cts[s]).len(),
                    counter@ == space_marks(xor_bytes(cts[m], cts[s])),
                    holds_tally(main_counter@, cts, m, s, index),
                decreases len - index,
            {
                let ghost before = main_counter@;
                proof {
                    lemma_flag_count_full(cts, m, index as int, s);
                    assert(records(before, index, tally(cts, m, index, s, index)));
                }
                if counter.contains_key(&index) {
                    let seen: Option<usize> = match main_counter.get(&index) {
                        Some(counter_value) => Some(*counter_value),
                        None => None,
                    };
                    match seen {
                        Some(counter_value) => {
                            main_counter.insert(index, counter_value + 1);
                        },
                        None => {
                            main_counter.insert(index, 1);
                        },
                    }
                }
                proof {
                    let next = (index + 1) as usize;
                    assert forall|q: usize| #![trigger tally(cts, m, q, s, next)]
                        records(main_counter@, q, tally(cts, m, q, s, next)) by {
                        assert(records(before, q, tally(cts, m, q, s, index)));
                    }
                }
                index += 1;
            }
        }
        proof {
            lemma_tally_next(main_counter@, cts, m, s, index);
        }
        secondary_index += 1;
    }
    proof {
        assert forall|q: usize| #![trigger main_counter@.contains_key(q)]
            records(main_counter@, q, flag_count(cts, m, q as int, n as int)) by {
            assert(records(main_counter@, q, tally(cts, m, q, n as int, 0)));
        }
    }
    main_counter
}

/// Analyses a set of ciphertexts for spaces in the plaintexts to recover the
/// part of the key that covers the first ciphertext.
///
/// Each ciphertext in turn is the main one. Where it shows a probable space
/// at a position against every other ciphertext, its plaintext is taken to
/// hold a space there, which gives the key byte. Where several ciphertexts
/// claim a position, the last one decides.
pub fn recover_partial_key(ciphertexts: &Vec<Vec<u8>>) -> (key: Vec<Option<u8>>)
    requires
        ciphertexts.len() > 0,
    ensures
        key@ == partial_key(texts(ciphertexts@)),
{
    broadcast use vstd::std_specs::hash::group_hash_axioms;
    let ghost cts = texts(ciphertexts@);
    let n: usize = ciphertexts.len();
    let width: usize = ciphertexts[0].len();
    let mut key: Vec<Option<u8>> = Vec::new();
    while key.len() < width
        invariant
            key.len() <= width,
            forall|p: int| 0 <= p < key.len() ==> key@[p] == None::<u8>,
        decreases width - key.len(),
    {
        key.push(None);
    }
    let mut main_index: usize = 0;
    while main_index < n
        invariant
            main_index <= n,
            n == ciphertexts.len(),
            n > 0,
            cts == texts(ciphertexts@),
            width == cts[0].len(),
            key@.len() == width,
            forall|p: int| 0 <= p < width ==> key@[p] == key_slot(cts, p, main_index as int),
        decreases n - main_index,
    {
        let ghost m = main_index as int;
        let main_ciphertext = &ciphertexts[main_index];
        let main_counter = count_spaces(ciphertexts, main_index);
        let mut index: usize = 0;
        while index < width
            invariant
                index <= width,
                n == ciphertexts.len(),
                n > 0,
                m == main_index as int,
                main_index < n,
                cts == texts(ciphertexts@),
                main_ciphertext@ == cts[m],
                width == cts[0].len(),
                key@.len() == width,
                forall|q: usize| #![trigger main_counter@.contains_key(q)]
                    records(main_counter@, q, flag_count(cts, m, q as int, n as int)),
                forall|p: int| 0 <= p < index ==> key@[p] == key_slot(cts, p, m + 1),
                forall|p: int| index <= p < width ==> key@[p] == key_slot(cts, p, m),
            decreases width - index,
        {
            proof {
                lemma_flag_count_full(cts, m, index as int, n as int);
                assert(records(
                    main_counter@,
                    index,
                    flag_count(cts, m, index as int, n as int),
                ));
                if space_at(cts, m, index as int) {
                    let s = if m == 0 { 1int } else { 0int };
                    assert(flagged(cts[m], cts[s], index as int));
                }
            }
            let count: Option<usize> = match main_counter.get(&index) {
                Some(count) => Some(*count),
                None => None,
            };
            match count {
                Some(count) => {
                    if count == n - 1 {
                        key[index] = Some(0x20 ^ main_ciphertext[index]);
                    }
                },
                None => {},
            }
            index += 1;
        }
        main_index += 1;
    }
    assert(key@ =~= partial_key(cts));
    key
}

/// Where some ciphertext before `bound` shows a space at a position against
/// every other one, the last witness is such a ciphertext, and none after
/// it is.
pub proof fn lemma_last_witness(cts: Seq<Seq<u8>>, p: int, bound: int, m: int)
    requires
        0 <= m < bound,
        space_at(cts, m, p),
    ensures
        m <= last_witness(cts, p, bound) < bound,
        space_at(cts, last_witness(cts, p, bound), p),
    decreases bound,
{
    if !space_at(cts, bound - 1, p) {
        lemma_last_witness(cts, p, bound - 1, m);
    }
}

/// A position stays unknown exactly where no ciphertext shows a space
/// there against every other one.
pub proof fn lemma_no_witness(cts: Seq<Seq<u8>>, p: int, bound: int)
    ensures
        key_slot(cts, p, bound).is_none() <==> (forall|m: int|
            0 <= m < bound ==> !space_at(cts, m, p)),
    decreases bound,
{
    if bound > 0 {
        lemma_no_witness(cts, p, bound - 1);
        if space_at(cts, bound - 1, p) {
            assert(last_witness(cts, p, bound) == bound - 1);
        }
    }
}

/// An ASCII letter.
pub open spec fn is_letter(b: u8) -> bool {
    (0x41 <= b <= 0x5a) || (0x61 <= b <= 0x7a)
}

/// The plaintext byte at position `p` of ciphertext `s`, were `k` the key
/// byte there.
pub open spec fn plain_at(cts: Seq<Seq<u8>>, s: int, p: int, k: u8) -> u8 {
    cts[s][p] ^ k
}

/// How spaces and letters behave under XOR: two spaces cancel, a space
/// against a letter gives a letter, two different letters give neither zero
/// nor a letter, and a ciphertext byte that hides a space gives the key byte
/// away.
proof fn lemma_xor_of_text(a: u8, b: u8, k: u8)
    ensures
        a ^ k == 0x20 && b ^ k == 0x20 ==> a ^ b == 0,
        a ^ k == 0x20 && is_letter(b ^ k) ==> is_letter(a ^ b),
        is_letter(a ^ k) && is_letter(b ^ k) && a != b ==> !probable_space(a ^ b),
        a ^ k == 0x20 ==> 0x20u8 ^ a == k,
{
    assert(a ^ k == 0x20 && b ^ k == 0x20 ==> a ^ b == 0) by (bit_vector);
    assert(a ^ k == 0x20 && ((0x41 <= b ^ k && b ^ k <= 0x5a) || (0x61 <= b ^ k && b ^ k
        <= 0x7a)) ==> ((0x41 <= a ^ b && a ^ b <= 0x5a) || (0x61 <= a ^ b && a ^ b <= 0x7a)))
        by (bit_vector);
    assert(((0x41 <= a ^ k && a ^ k <= 0x5a) || (0x61 <= a ^ k && a ^ k <= 0x7a)) && ((0x41
        <= b ^ k && b ^ k <= 0x5a) || (0x61 <= b ^ k && b ^ k <= 0x7a)) && a != b ==> !(a ^ b
        == 0 || (0x61 <= a ^ b && a ^ b <= 0x7a) || (0x41 <= a ^ b && a ^ b <= 0x5a)))
        by (bit_vector);
    assert(a ^ k == 0x20 ==> 0x20u8 ^ a == k) by (bit_vector);
}

/// Ciphertext `s` reaches position `p` and holds a letter there, were `k`
/// the key byte.
pub open spec fn letter_at(cts: Seq<Seq<u8>>, s: int, p: int, k: u8) -> bool {
    0 <= s < cts.len() && p < cts[s].len() && is_letter(plain_at(cts, s, p, k))
}

/// Position `p` holds text that gives a space away. Under the key byte `k`,
/// every ciphertext that reaches `p` holds there a space or a letter; at
/// least one holds a space; and each letter stands against a different
/// letter in some other ciphertext.
pub open spec fn text_at(cts: Seq<Seq<u8>>, p: int, k: u8) -> bool {
    &&& forall|s: int|
        0 <= s < cts.len() && p < cts[s].len() ==> #[trigger] plain_at(cts, s, p, k) == 0x20
            || is_letter(plain_at(cts, s, p, k))
    &&& exists|m: int|
        0 <= m < cts.len() && p < cts[m].len() && #[trigger] plain_at(cts, m, p, k) == 0x20
    &&& forall|s: int| #[trigger]
        letter_at(cts, s, p, k) ==> exists|t: int|
            0 <= t < cts.len() && p < cts[t].len() && is_letter(
                #[trigger] plain_at(cts, t, p, k),
            ) && plain_at(cts, t, p, k) != plain_at(cts, s, p, k)
}

/// The analysis finds the key byte where the plaintexts allow it. Where
/// two or more ciphertexts all reach position `p`, and the position holds
/// text that gives a space away under the key byte `k`, the partial key has
/// `k` at `p`.
pub proof fn lemma_partial_key_finds_space(cts: Seq<Seq<u8>>, p: int, k: u8)
    requires
        cts.len() >= 2,
        0 <= p,
        forall|s: int| 0 <= s < cts.len() ==> p < (#[trigger] cts[s]).len(),
        text_at(cts, p, k),
    ensures
        partial_key(cts)[p] == Some(k),
{
    let n = cts.len() as int;
    let m = choose|m: int|
        0 <= m < cts.len() && p < cts[m].len() && #[trigger] plain_at(cts, m, p, k) == 0x20;
    assert(space_at(cts, m, p)) by {
        assert forall|s: int| 0 <= s < cts.len() && s != m implies #[trigger] flagged(
            cts[m],
            cts[s],
            p,
        ) by {
            assert(p < cts[m].len() && p < cts[s].len());
            assert(plain_at(cts, s, p, k) == 0x20 || is_letter(plain_at(cts, s, p, k)));
            lemma_xor_of_text(cts[m][p], cts[s][p], k);
        }
    }
    lemma_last_witness(cts, p, n, m);
    let w = last_witness(cts, p, n);
    assert(p < cts[w].len());
    assert(plain_at(cts, w, p, k) == 0x20) by {
        if is_letter(plain_at(cts, w, p, k)) {
            assert(letter_at(cts, w, p, k));
            let t = choose|t: int|
                0 <= t < cts.len() && p < cts[t].len() && is_letter(
                    #[trigger] plain_at(cts, t, p, k),
                ) && plain_at(cts, t, p, k) != plain_at(cts, w, p, k);
            assert(t != w);
            assert(cts[w][p] != cts[t][p]);
            lemma_xor_of_text(cts[w][p], cts[t][p], k);
            assert(flagged(cts[w], cts[t], p));
            assert(false);
        }
    }
    lemma_xor_of_text(cts[w][p], cts[w][p], k);
    assert(p < cts[0].len());
}

/// The lengths of a list of byte strings never decrease.
pub open spec fn ascending(cts: Seq<Seq<u8>>) -> bool {
    forall|i: int, j: int| 0 <= i <= j < cts.len() ==> cts[i].len() <= cts[j].len()
}

/// A byte string enters a list in front of the first member that is at least
/// as long.
pub open spec fn insert_by_len(x: Seq<u8>, sorted: Seq<Seq<u8>>) -> Seq<Seq<u8>>
    decreases sorted.len(),
{
    if sorted.len() == 0 || x.len() <= sorted[0].len() {
        seq![x] + sorted
    } else {
        seq![sorted[0]] + insert_by_len(x, sorted.drop_first())
    }
}

/// A list of byte strings in ascending order of length, strings of one
/// length in the order in which the list holds them.
pub open spec fn sort_by_len(cts: Seq<Seq<u8>>) -> Seq<Seq<u8>>
    decreases cts.len(),
{
    if cts.len() == 0 {
        Seq::empty()
    } else {
        insert_by_len(cts[0], sort_by_len(cts.drop_first()))
    }
}

/// What is left of an ascending list once its first and shortest member is
/// used up: the others, each without the prefix that the first one covered.
pub open spec fn after_shortest(sorted: Seq<Seq<u8>>) -> Seq<Seq<u8>> {
    Seq::new(
        (sorted.len() - 1) as nat,
        |i: int| sorted[i + 1].skip(sorted[0].len() as int),
    )
}

/// The key that an ascending list of ciphertexts yields: the partial key
/// over the shortest, followed by the key that the rest yields beyond it.
pub open spec fn stitched_key(sorted: Seq<Seq<u8>>) -> Seq<Option<u8>>
    decreases sorted.len(),
{
    if sorted.len() <= 1 {
        Seq::empty()
    } else {
        partial_key(sorted) + stitched_key(after_shortest(sorted))
    }
}

/// The key recovered from a set of ciphertexts.
pub open spec fn recovered_key(cts: Seq<Seq<u8>>) -> Seq<Option<u8>> {
    stitched_key(sort_by_len(cts))
}

/// Inserting at the first place where the list is no longer shorter is what
/// `insert_by_len` does.
pub proof fn lemma_insert_by_len_at(x: Seq<u8>, sorted: Seq<Seq<u8>>, pos: int)
    requires
        0 <= pos <= sorted.len(),
        forall|i: int| 0 <= i < pos ==> sorted[i].len() < x.len(),
        pos < sorted.len() ==> x.len() <= sorted[pos].len(),
    ensures
        insert_by_len(x, sorted) == sorted.insert(pos, x),
    decreases sorted.len(),
{
    if sorted.len() == 0 || x.len() <= sorted[0].len() {
        assert(pos == 0);
        assert(seq![x] + sorted =~= sorted.insert(0, x));
    } else {
        let tail = sorted.drop_first();
        assert(pos > 0);
        assert forall|i: int| 0 <= i < pos - 1 implies tail[i].len() < x.len() by {
            assert(tail[i] == sorted[i + 1]);
        }
        lemma_insert_by_len_at(x, tail, pos - 1);
        assert(seq![sorted[0]] + tail.insert(pos - 1, x) =~= sorted.insert(pos, x));
    }
}

/// `insert_by_len` adds one member, keeps an ascending list ascending, and
/// keeps what the list held.
pub proof fn lemma_insert_by_len(x: Seq<u8>, sorted: Seq<Seq<u8>>)
    ensures
        insert_by_len(x, sorted).len() == sorted.len() + 1,
        insert_by_len(x, sorted).to_multiset() == sorted.to_multiset().insert(x),
        ascending(sorted) ==> ascending(insert_by_len(x, sorted)),
    decreases sorted.len(),
{
    broadcast use vstd::seq_lib::group_to_multiset_ensures;
    let r = insert_by_len(x, sorted);
    if sorted.len() == 0 || x.len() <= sorted[0].len() {
        assert(r =~= sorted.insert(0, x));
        vstd::seq_lib::to_multiset_insert(sorted, 0, x);
        if ascending(sorted) {
            assert forall|i: int, j: int| 0 <= i <= j < r.len() implies r[i].len()
                <= r[j].len() by {
                if i > 0 {
                    assert(sorted[i - 1].len() <= sorted[j - 1].len());
                } else if j > 0 {
                    assert(sorted[0].len() <= sorted[j - 1].len());
                }
            }
        }
    } else {
        let tail = sorted.drop_first();
        let inner = insert_by_len(x, tail);
        lemma_insert_by_len(x, tail);
        assert(sorted =~= tail.insert(0, sorted[0]));
        vstd::seq_lib::to_multiset_insert(tail, 0, sorted[0]);
        assert(r =~= inner.insert(0, sorted[0]));
        vstd::seq_lib::to_multiset_insert(inner, 0, sorted[0]);
        assert(r.to_multiset() =~= sorted.to_multiset().insert(x));
        if ascending(sorted) {
            assert forall|i: int, j: int| 0 <= i <= j < tail.len() implies tail[i].len()
                <= tail[j].len() by {
                assert(sorted[i + 1].len() <= sorted[j + 1].len());
            }
            assert(ascending(inner));
            assert forall|k: int| 0 <= k < inner.len() implies sorted[0].len()
                <= inner[k].len() by {
                assert(inner.to_multiset().count(inner[k]) > 0);
                if inner[k] != x {
                    assert(tail.to_multiset().count(inner[k]) > 0);
                    let w = choose|w: int| 0 <= w < tail.len() && tail[w] == inner[k];
                    assert(sorted[0].len() <= sorted[w + 1].len());
                }
            }
            assert forall|i: int, j: int| 0 <= i <= j < r.len() implies r[i].len()
                <= r[j].len() by {
                if i > 0 {
                    assert(inner[i - 1].len() <= inner[j - 1].len());
                } else if j > 0 {
                    assert(sorted[0].len() <= inner[j - 1].len());
                }
            }
        }
    }
}

/// Sorting by length keeps the number of ciphertexts and the ciphertexts
/// themselves, and puts their lengths in ascending order.
pub proof fn lemma_sort_by_len_ascending(cts: Seq<Seq<u8>>)
    ensures
        sort_by_len(cts).len() == cts.len(),
        sort_by_len(cts).to_multiset() == cts.to_multiset(),
        ascending(sort_by_len(cts)),
    decreases cts.len(),
{
    broadcast use vstd::seq_lib::group_to_multiset_ensures;
    if cts.len() == 0 {
        assert(cts =~= Seq::<Seq<u8>>::empty());
    } else {
        let tail = cts.drop_first();
        lemma_sort_by_len_ascending(tail);
        lemma_insert_by_len(cts[0], sort_by_len(tail));
        assert(cts =~= tail.insert(0, cts[0]));
        vstd::seq_lib::to_multiset_insert(tail, 0, cts[0]);
    }
}

/// The test that a byte string has a given length.
pub open spec fn has_len(len: nat) -> spec_fn(Seq<u8>) -> bool {
    |c: Seq<u8>| c.len() == len
}

/// A byte string enters a list in front of every member of its own length.
proof fn lemma_insert_by_len_filter(x: Seq<u8>, sorted: Seq<Seq<u8>>, len: nat)
    ensures
        insert_by_len(x, sorted).filter(has_len(len)) == (if x.len() == len {
            seq![x]
        } else {
            Seq::empty()
        }) + sorted.filter(has_len(len)),
    decreases sorted.len(),
{
    let p = has_len(len);
    if sorted.len() == 0 || x.len() <= sorted[0].len() {
        sorted.lemma_filter_prepend(x, p);
    } else {
        let head = sorted[0];
        let tail = sorted.drop_first();
        let inner = insert_by_len(x, tail);
        lemma_insert_by_len_filter(x, tail, len);
        inner.lemma_filter_prepend(head, p);
        tail.lemma_filter_prepend(head, p);
        assert(sorted =~= seq![head] + tail);
        let of_x = if x.len() == len { seq![x] } else { Seq::<Seq<u8>>::empty() };
        let of_head = if head.len() == len { seq![head] } else { Seq::<Seq<u8>>::empty() };
        assert(of_head + (of_x + tail.filter(p)) =~= of_x + (of_head + tail.filter(p)));
    }
}

/// Sorting by length is stable: the ciphertexts of any one length stand in
/// the sorted list in the order in which they were given. With the
/// ascending order of the lengths this fixes the sorted list.
pub proof fn lemma_sort_by_len_stable(cts: Seq<Seq<u8>>, len: nat)
    ensures
        sort_by_len(cts).filter(has_len(len)) == cts.filter(has_len(len)),
    decreases cts.len(),
{
    if cts.len() > 0 {
        let tail = cts.drop_first();
        lemma_sort_by_len_stable(tail, len);
        lemma_insert_by_len_filter(cts[0], sort_by_len(tail), len);
        tail.lemma_filter_prepend(cts[0], has_len(len));
        assert(cts =~= seq![cts[0]] + tail);
    }
}

/// Sorts ciphertexts by ascending length, keeping those of one length in
/// their given order.
pub fn sort_by_length(ciphertexts: Vec<Vec<u8>>) -> (sorted: Vec<Vec<u8>>)
    ensures
        texts(sorted@) == sort_by_len(texts(ciphertexts@)),
{
    let ghost all = texts(ciphertexts@);
    let mut rest = ciphertexts;
    let mut sorted: Vec<Vec<u8>> = Vec::new();
    assert(all.skip(all.len() as int) =~= Seq::<Seq<u8>>::empty());
    assert(texts(sorted@) =~= Seq::<Seq<u8>>::empty());
    while rest.len() > 0
        invariant
            rest.len() <= all.len(),
            texts(rest@) == all.take(rest.len() as int),
            texts(sorted@) == sort_by_len(all.skip(rest.len() as int)),
        decreases rest.len(),
    {
        let ghost before = texts(rest@);
        let ghost done = texts(sorted@);
        let item = rest.pop().unwrap();
        let mut pos: usize = 0;
        while pos < sorted.len() && sorted[pos].len() < item.len()
            invariant
                pos <= sorted.len(),
                forall|i: int| 0 <= i < pos ==> sorted@[i]@.len() < item@.len(),
            decreases sorted.len() - pos,
        {
            pos += 1;
        }
        sorted.insert(pos, item);
        proof {
            let k = rest.len() as int;
            assert(item@ == before[k]);
            assert(item@ == all[k]);
            assert(all.skip(k)[0] == all[k]);
            assert(all.skip(k).drop_first() =~= all.skip(k + 1));
            assert forall|i: int| 0 <= i < pos implies done[i].len() < item@.len() by {
            }
            lemma_insert_by_len_at(item@, done, pos as int);
            assert(texts(sorted@) =~= done.insert(pos as int, item@));
            assert(texts(rest@) =~= all.take(k));
        }
    }
    assert(all.skip(0) =~= all);
    sorted
}

/// Dropping the shortest member of an ascending list leaves an ascending
/// list.
pub proof fn lemma_after_shortest_ascending(sorted: Seq<Seq<u8>>)
    requires
        ascending(sorted),
        sorted.len() >= 1,
    ensures
        ascending(after_shortest(sorted)),
        after_shortest(sorted).len() == sorted.len() - 1,
        forall|i: int|
            0 <= i < sorted.len() - 1 ==> (#[trigger] after_shortest(sorted)[i]).len()
                == sorted[i + 1].len() - sorted[0].len(),
{
    let rest = after_shortest(sorted);
    assert forall|i: int| 0 <= i < sorted.len() - 1 implies (#[trigger] rest[i]).len()
        == sorted[i + 1].len() - sorted[0].len() by {
        assert(sorted[0].len() <= sorted[i + 1].len());
    }
    assert forall|i: int, j: int| 0 <= i <= j < rest.len() implies rest[i].len()
        <= rest[j].len() by {
        assert(rest[i].len() == sorted[i + 1].len() - sorted[0].len());
        assert(rest[j].len() == sorted[j + 1].len() - sorted[0].len());
    }
}

/// The key stitched from an ascending list of two or more ciphertexts is as
/// long as the last but one of them; from fewer it is empty.
pub proof fn lemma_stitched_key_len(sorted: Seq<Seq<u8>>)
    requires
        ascending(sorted),
    ensures
        sorted.len() < 2 ==> stitched_key(sorted).len() == 0,
        sorted.len() >= 2 ==> stitched_key(sorted).len() == sorted[sorted.len() - 2].len(),
    decreases sorted.len(),
{
    if sorted.len() >= 2 {
        let rest = after_shortest(sorted);
        lemma_after_shortest_ascending(sorted);
        lemma_stitched_key_len(rest);
        if rest.len() >= 2 {
            assert(rest[rest.len() - 2].len() == sorted[rest.len() - 1].len() - sorted[0].len());
        }
    }
}

/// The recovered key is empty for fewer than two ciphertexts. For two or
/// more it is as long as the second longest of them, so every position of
/// it is covered by at least two ciphertexts.
pub proof fn lemma_recovered_key_len(cts: Seq<Seq<u8>>)
    ensures
        cts.len() < 2 ==> recovered_key(cts).len() == 0,
        cts.len() >= 2 ==> recovered_key(cts).len() == sort_by_len(cts)[cts.len() - 2].len(),
        cts.len() >= 2 ==> exists|i: int, j: int|
            0 <= i < cts.len() && 0 <= j < cts.len() && i != j && cts[i].len()
                == recovered_key(cts).len() && cts[j].len() >= recovered_key(cts).len(),
{
    lemma_sort_by_len_ascending(cts);
    lemma_stitched_key_len(sort_by_len(cts));
    if cts.len() >= 2 {
        let sorted = sort_by_len(cts);
        let n = cts.len() as int;
        lemma_two_members(cts, sorted, n - 2, n - 1);
    }
}

/// Two places of a rearranged list hold what two distinct places of the
/// list as it was given hold.
proof fn lemma_two_members(cts: Seq<Seq<u8>>, sorted: Seq<Seq<u8>>, a: int, b: int)
    requires
        cts.to_multiset() == sorted.to_multiset(),
        0 <= a < b < sorted.len(),
    ensures
        exists|i: int, j: int|
            0 <= i < cts.len() && 0 <= j < cts.len() && i != j && cts[i] == sorted[a] && cts[j]
                == sorted[b],
{
    broadcast use vstd::seq_lib::group_to_multiset_ensures;
    let x = sorted[a];
    let y = sorted[b];
    assert(sorted.to_multiset().count(x) > 0);
    assert(sorted.to_multiset().count(y) > 0);
    let i = choose|i: int| 0 <= i < cts.len() && cts[i] == x;
    if x != y {
        let j = choose|j: int| 0 <= j < cts.len() && cts[j] == y;
        assert(i != j);
    } else {
        // The value occurs twice in the rearranged list, so twice in the given one.
        let without = sorted.remove(a);
        vstd::seq_lib::to_multiset_remove(sorted, a);
        assert(without[b - 1] == y);
        assert(without.to_multiset().count(y) > 0);
        assert(sorted.to_multiset().count(x) >= 2);
        let trimmed = cts.remove(i);
        vstd::seq_lib::to_multiset_remove(cts, i);
        assert(trimmed.to_multiset().count(x) > 0);
        let k = choose|k: int| 0 <= k < trimmed.len() && trimmed[k] == x;
        let j = if k < i { k } else { k + 1 };
        assert(cts[j] == x);
        assert(i != j);
    }
}

/// Text that gives a space away does so in whatever order the ciphertexts
/// stand.
proof fn lemma_text_at_rearranged(given: Seq<Seq<u8>>, sorted: Seq<Seq<u8>>, p: int, k: u8)
    requires
        given.to_multiset() == sorted.to_multiset(),
        0 <= p,
        text_at(given, p, k),
    ensures
        text_at(sorted, p, k),
{
    broadcast use vstd::seq_lib::group_to_multiset_ensures;
    assert forall|s: int| 0 <= s < sorted.len() && p < sorted[s].len() implies #[trigger] plain_at(
        sorted,
        s,
        p,
        k,
    ) == 0x20 || is_letter(plain_at(sorted, s, p, k)) by {
        assert(sorted.to_multiset().count(sorted[s]) > 0);
        let i = choose|i: int| 0 <= i < given.len() && given[i] == sorted[s];
        assert(plain_at(given, i, p, k) == plain_at(sorted, s, p, k));
    }
    let m = choose|m: int|
        0 <= m < given.len() && p < given[m].len() && #[trigger] plain_at(given, m, p, k) == 0x20;
    assert(given.to_multiset().count(given[m]) > 0);
    let m2 = choose|j: int| 0 <= j < sorted.len() && sorted[j] == given[m];
    assert(plain_at(sorted, m2, p, k) == 0x20);
    assert forall|s: int| #[trigger] letter_at(sorted, s, p, k) implies exists|t: int|
        0 <= t < sorted.len() && p < sorted[t].len() && is_letter(
            #[trigger] plain_at(sorted, t, p, k),
        ) && plain_at(sorted, t, p, k) != plain_at(sorted, s, p, k) by {
        assert(sorted.to_multiset().count(sorted[s]) > 0);
        let i = choose|i: int| 0 <= i < given.len() && given[i] == sorted[s];
        assert(plain_at(given, i, p, k) == plain_at(sorted, s, p, k));
        assert(letter_at(given, i, p, k));
        let u = choose|u: int|
            0 <= u < given.len() && p < given[u].len() && is_letter(
                #[trigger] plain_at(given, u, p, k),
            ) && plain_at(given, u, p, k) != plain_at(given, i, p, k);
        assert(given.to_multiset().count(given[u]) > 0);
        let t = choose|t: int| 0 <= t < sorted.len() && sorted[t] == given[u];
        assert(plain_at(sorted, t, p, k) == plain_at(given, u, p, k));
    }
}

/// Text beyond the shortest ciphertext of an ascending list gives its space
/// away in what is left once the shortest is used up.
proof fn lemma_text_at_after_shortest(sorted: Seq<Seq<u8>>, p: int, k: u8)
    requires
        ascending(sorted),
        sorted.len() >= 1,
        sorted[0].len() <= p,
        text_at(sorted, p, k),
    ensures
        text_at(after_shortest(sorted), p - sorted[0].len(), k),
{
    let rest = after_shortest(sorted);
    let first = sorted[0].len() as int;
    let q = p - first;
    lemma_after_shortest_ascending(sorted);
    assert forall|s: int| 0 <= s < rest.len() && q < rest[s].len() implies #[trigger] plain_at(
        rest,
        s,
        q,
        k,
    ) == 0x20 || is_letter(plain_at(rest, s, q, k)) by {
        assert(rest[s].len() == sorted[s + 1].len() - first);
        assert(rest[s][q] == sorted[s + 1][p]);
        assert(plain_at(rest, s, q, k) == plain_at(sorted, s + 1, p, k));
    }
    let m = choose|m: int|
        0 <= m < sorted.len() && p < sorted[m].len() && #[trigger] plain_at(sorted, m, p, k)
            == 0x20;
    assert(m >= 1);
    assert(rest[m - 1].len() == sorted[m].len() - first);
    assert(rest[m - 1][q] == sorted[m][p]);
    assert(plain_at(rest, m - 1, q, k) == 0x20);
    assert forall|s: int| #[trigger] letter_at(rest, s, q, k) implies exists|t: int|
        0 <= t < rest.len() && q < rest[t].len() && is_letter(#[trigger] plain_at(rest, t, q, k))
            && plain_at(rest, t, q, k) != plain_at(rest, s, q, k) by {
        assert(rest[s].len() == sorted[s + 1].len() - first);
        assert(rest[s][q] == sorted[s + 1][p]);
        assert(plain_at(rest, s, q, k) == plain_at(sorted, s + 1, p, k));
        assert(letter_at(sorted, s + 1, p, k));
        let u = choose|u: int|
            0 <= u < sorted.len() && p < sorted[u].len() && is_letter(
                #[trigger] plain_at(sorted, u, p, k),
            ) && plain_at(sorted, u, p, k) != plain_at(sorted, s + 1, p, k);
        assert(u >= 1);
        assert(rest[u - 1].len() == sorted[u].len() - first);
        assert(rest[u - 1][q] == sorted[u][p]);
        assert(plain_at(rest, u - 1, q, k) == plain_at(sorted, u, p, k));
    }
}

/// The key stitched from an ascending list has `k` at every position that
/// holds text which gives a space away under `k`.
pub proof fn lemma_stitched_key_finds_space(sorted: Seq<Seq<u8>>, p: int, k: u8)
    requires
        ascending(sorted),
        0 <= p < stitched_key(sorted).len(),
        text_at(sorted, p, k),
    ensures
        stitched_key(sorted)[p] == Some(k),
    decreases sorted.len(),
{
    let first = sorted[0].len() as int;
    if p < first {
        assert forall|s: int| 0 <= s < sorted.len() implies p < (#[trigger] sorted[s]).len() by {
            assert(sorted[0].len() <= sorted[s].len());
        }
        lemma_partial_key_finds_space(sorted, p, k);
    } else {
        lemma_after_shortest_ascending(sorted);
        lemma_text_at_after_shortest(sorted, p, k);
        lemma_stitched_key_finds_space(after_shortest(sorted), p - first, k);
    }
}

/// The recovery finds the key where the plaintexts allow it: the recovered
/// key has `k` at every position of it that holds text which gives a space
/// away under `k`.
pub proof fn lemma_recovered_key_finds_space(cts: Seq<Seq<u8>>, p: int, k: u8)
    requires
        0 <= p < recovered_key(cts).len(),
        text_at(cts, p, k),
    ensures
        recovered_key(cts)[p] == Some(k),
{
    lemma_sort_by_len_ascending(cts);
    lemma_text_at_rearranged(cts, sort_by_len(cts), p, k);
    lemma_stitched_key_finds_space(sort_by_len(cts), p, k);
}

/// The bytes of a ciphertext from position `from` on.
fn tail_from(ciphertext: &Vec<u8>, from: usize) -> (tail: Vec<u8>)
    requires
        from <= ciphertext.len(),
    ensures
        tail@ == ciphertext@.skip(from as int),
{
    let mut tail: Vec<u8> = Vec::new();
    let mut i: usize = from;
    while i < ciphertext.len()
        invariant
            from <= i <= ciphertext.len(),
            tail@ == ciphertext@.subrange(from as int, i as int),
        decreases ciphertext.len() - i,
    {
        tail.push(ciphertext[i]);
        i += 1;
        assert(tail@ =~= ciphertext@.subrange(from as int, i as int));
    }
    assert(ciphertext@.subrange(from as int, ciphertext.len() as int) =~= ciphertext@.skip(
        from as int,
    ));
    tail
}

/// Recovers as much of the key as the ciphertexts give away.
///
/// The ciphertexts are taken in ascending order of length. The whole set
/// yields the key over the shortest of them; then the shortest is dropped,
/// the others lose the prefix that it covered, and what is left yields the
/// next stretch of the key, until fewer than two ciphertexts remain.
pub fn recover_key(ciphertexts: Vec<Vec<u8>>) -> (key: Vec<Option<u8>>)
    ensures
        key@ == recovered_key(texts(ciphertexts@)),
        ciphertexts.len() < 2 ==> key.len() == 0,
        ciphertexts.len() >= 2 ==> key.len() == sort_by_len(texts(ciphertexts@))[ciphertexts.len()
            - 2].len(),
{
    let ghost sorted = sort_by_len(texts(ciphertexts@));
    proof {
        lemma_sort_by_len_ascending(texts(ciphertexts@));
        lemma_recovered_key_len(texts(ciphertexts@));
    }
    let mut working = sort_by_length(ciphertexts);
    let mut key: Vec<Option<u8>> = Vec::new();
    assert(key@ + stitched_key(sorted) =~= stitched_key(sorted));
    while working.len() > 1
        invariant
            ascending(texts(working@)),
            key@ + stitched_key(texts(working@)) == stitched_key(sorted),
        decreases working.len(),
    {
        let ghost current = texts(working@);
        let ghost found = key@;
        let mut stretch = recover_partial_key(&working);
        key.append(&mut stretch);
        let string_length: usize = working[0].len();
        let mut remaining: Vec<Vec<u8>> = Vec::new();
        let mut i: usize = 1;
        while i < working.len()
            invariant
                1 <= i <= working.len(),
                current == texts(working@),
                ascending(current),
                string_length == current[0].len(),
                remaining.len() == i - 1,
                forall|j: int|
                    0 <= j < i - 1 ==> (#[trigger] remaining@[j])@ == current[j + 1].skip(
                        string_length as int,
                    ),
            decreases working.len() - i,
        {
            assert(current[0].len() <= current[i as int].len());
            remaining.push(tail_from(&working[i], string_length));
            i += 1;
        }
        working = remaining;
        proof {
            assert(texts(working@) =~= after_shortest(current));
            lemma_after_shortest_ascending(current);
            assert(key@ =~= found + partial_key(current));
            assert(key@ + stitched_key(after_shortest(current)) =~= found + stitched_key(
                current,
            ));
        }
    }
    assert(key@ + stitched_key(texts(working@)) =~= key@);
    key
}

} // verus!
