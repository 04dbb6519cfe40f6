//! The integer side of the model: the causal attention mask, and how each named
//! parameter is deterministically initialized from the experiment seed.
use vstd::prelude::*;
use crate::hashing::{sha256_digest, sha256};
use crate::text::{chars_of, find_from, first_match, lemma_first_match, occurs_at};

verus! {

/// Entry `(row, column)` of the causal mask: a position may attend to itself
/// and to earlier positions only.
pub open spec fn mask_entry(row: int, column: int) -> u8 {
    if column <= row { 1 } else { 0 }
}

/// The `time × time` causal mask, row after row.
pub fn causal_mask_values(time: usize) -> (values: Vec<u8>)
    requires
        time * time <= usize::MAX,
    ensures
        values@.len() == time * time,
        forall|row: int, column: int| 0 <= row < time && 0 <= column < time ==>
            #[trigger] values@[row * time + column] == mask_entry(row, column),
{
    let mut values: Vec<u8> = Vec::new();
    let mut row: usize = 0;
    while row < time
        invariant
            row <= time,
            time * time <= usize::MAX,
            values@.len() == row * time,
            forall|r: int, c: int| 0 <= r < row && 0 <= c < time ==> #[trigger] values@[r * time + c] == mask_entry(r, c),
        decreases time - row,
    {
        let mut column: usize = 0;
        while column < time
            invariant
                row < time,
                column <= time,
                values@.len() == row * time + column,
                forall|r: int, c: int| 0 <= r < row && 0 <= c < time ==> #[trigger] values@[r * time + c] == mask_entry(r, c),
                forall|c: int| 0 <= c < column ==> #[trigger] values@[row * time + c] == mask_entry(row as int, c),
            decreases time - column,
        {
            let ghost before = values@;
            values.push(if column <= row { 1u8 } else { 0u8 });
            assert forall|r: int, c: int| 0 <= r < row && 0 <= c < time implies #[trigger] values@[r * time + c] == mask_entry(r, c) by {
                assert(r * time + c < row * time) by (nonlinear_arith)
                    requires 0 <= r < row, 0 <= c < time;
                assert(values@[r * time + c] == before[r * time + c]);
            }
            column = column + 1;
        }
        assert((row + 1) * time == row * time + time) by (nonlinear_arith);
        row = row + 1;
        assert forall|r: int, c: int| 0 <= r < row && 0 <= c < time implies #[trigger] values@[r * time + c] == mask_entry(r, c) by {
            if r == row - 1 {
                assert(values@[(row - 1) * time + c] == mask_entry(r, c));
            }
        }
    }
    values
}

/// How a parameter tensor starts.
#[derive(Debug, Clone, Copy, PartialEq, Eq, Structural)]
pub enum ParameterInit {
    /// Biases start at zero.
    Zeros,
    /// Normalization weights start at one.
    Ones,
    /// Other weights are drawn from a normal distribution by a generator with this seed.
    Normal { seed: u64 },
}

/// Whether `s` ends with `suffix`.
pub open spec fn ends_with(s: Seq<char>, suffix: Seq<char>) -> bool {
    suffix.len() <= s.len() && s.subrange(s.len() - suffix.len(), s.len() as int) == suffix
}

/// Whether `pat` occurs somewhere in `s`.
pub open spec fn contains_text(s: Seq<char>, pat: Seq<char>) -> bool {
    exists|i: int| occurs_at(s, pat, i)
}

/// The little-endian value of the first eight bytes (`u64::from_le_bytes`).
pub open spec fn le_u64(b: Seq<u8>) -> int {
    b[0] + b[1] * 0x100 + b[2] * 0x1_0000 + b[3] * 0x100_0000 + b[4] * 0x1_0000_0000 + b[5] * 0x100_0000_0000
        + b[6] * 0x1_0000_0000_0000 + b[7] * 0x100_0000_0000_0000
}

/// The seed a parameter's generator gets: the experiment seed combined with the
/// first eight bytes of the SHA-256 of the parameter's name.
pub open spec fn parameter_seed(seed: u64, name: Seq<char>) -> u64 {
    seed ^ (le_u64(sha256_digest(vstd::utf8::encode_utf8(name))) as u64)
}

/// How the parameter with this name starts: biases at zero, normalization
/// weights at one, everything else from a generator seeded by the experiment
/// seed and the name, so that the result does not depend on the order in which
/// parameters are visited.
pub open spec fn spec_initializer(name: Seq<char>, seed: u64) -> ParameterInit {
    if ends_with(name, seq!['b', 'i', 'a', 's']) {
        ParameterInit::Zeros
    } else if contains_text(name, seq!['n', 'o', 'r', 'm']) && ends_with(name, seq!['w', 'e', 'i', 'g', 'h', 't']) {
        ParameterInit::Ones
    } else {
        ParameterInit::Normal { seed: parameter_seed(seed, name) }
    }
}

/// Which parameters are drawn at random does not depend on the seed, and two
/// different experiment seeds give each of them two different generator seeds.
pub proof fn lemma_seeds_separate_initializers(name: Seq<char>, a: u64, b: u64)
    requires
        a != b,
    ensures
        (spec_initializer(name, a) is Normal) == (spec_initializer(name, b) is Normal),
        spec_initializer(name, a) is Normal ==> spec_initializer(name, a) != spec_initializer(name, b),
{
    let x = le_u64(sha256_digest(vstd::utf8::encode_utf8(name))) as u64;
    assert(a ^ x != b ^ x) by (bit_vector)
        requires
            a != b,
    ;
}

/// Every parameter whose name ends with `bias` starts at zero, and every
/// parameter whose name holds `norm` anywhere and ends with `weight` starts at
/// one, whatever else the name holds and whatever the seed.
pub proof fn lemma_initializer_by_name(name: Seq<char>, seed: u64)
    ensures
        name.len() >= 4 && name.subrange(name.len() - 4, name.len() as int) == seq!['b', 'i', 'a', 's']
            ==> spec_initializer(name, seed) == ParameterInit::Zeros,
        (exists|i: int| 0 <= i && i + 4 <= name.len() && (#[trigger] name.skip(i)).take(4) == seq!['n', 'o', 'r', 'm'])
            && name.len() >= 6 && name.subrange(name.len() - 6, name.len() as int) == seq![
            'w',
            'e',
            'i',
            'g',
            'h',
            't',
        ] ==> spec_initializer(name, seed) == ParameterInit::Ones,
{
    if name.len() >= 6 && name.subrange(name.len() - 6, name.len() as int) == seq!['w', 'e', 'i', 'g', 'h', 't'] {
        let tail = name.subrange(name.len() - 4, name.len() as int);
        assert(tail[0] == name.subrange(name.len() - 6, name.len() as int)[2]);
        assert(!ends_with(name, seq!['b', 'i', 'a', 's']));
        if exists|i: int| 0 <= i && i + 4 <= name.len() && (#[trigger] name.skip(i)).take(4) == seq!['n', 'o', 'r', 'm'] {
            let i = choose|i: int| 0 <= i && i + 4 <= name.len() && (#[trigger] name.skip(i)).take(4) == seq!['n', 'o', 'r', 'm'];
            assert(name.subrange(i, i + 4) =~= name.skip(i).take(4));
            assert(occurs_at(name, seq!['n', 'o', 'r', 'm'], i));
        }
    }
}

fn has_suffix(s: &Vec<char>, suffix: &Vec<char>) -> (res: bool)
    ensures
        res == ends_with(s@, suffix@),
{
    if suffix.len() > s.len() {
        return false;
    }
    let slen = s.len();
    let offset = slen - suffix.len();
    let mut i: usize = 0;
    while i < suffix.len()
        invariant
            slen == s@.len(),
            offset + suffix@.len() == s@.len(),
            i <= suffix@.len(),
            forall|k: int| 0 <= k < i ==> s@[offset + k] == suffix@[k],
        decreases suffix@.len() - i,
    {
        if s[offset + i] != suffix[i] {
            assert(s@.subrange(offset as int, s@.len() as int)[i as int] != suffix@[i as int]);
            return false;
        }
        i = i + 1;
    }
    assert(s@.subrange(offset as int, s@.len() as int) =~= suffix@);
    true
}

/// How the named parameter is initialized.
pub fn initializer_for(name: &str, seed: u64) -> (res: ParameterInit)
    ensures
        res == spec_initializer(name@, seed),
        name@.len() >= 4 && name@.subrange(name@.len() - 4, name@.len() as int) == seq!['b', 'i', 'a', 's']
            ==> res == ParameterInit::Zeros,
        (exists|i: int| 0 <= i && i + 4 <= name@.len() && (#[trigger] name@.skip(i)).take(4) == seq!['n', 'o', 'r', 'm'])
            && name@.len() >= 6 && name@.subrange(name@.len() - 6, name@.len() as int) == seq![
            'w',
            'e',
            'i',
            'g',
            'h',
            't',
        ] ==> res == ParameterInit::Ones,
{
    proof {
        lemma_initializer_by_name(name@, seed);
    }
    let chars = chars_of(name);
    let bias = vec!['b', 'i', 'a', 's'];
    let norm = vec!['n', 'o', 'r', 'm'];
    let weight = vec!['w', 'e', 'i', 'g', 'h', 't'];
    assert(bias@ =~= seq!['b', 'i', 'a', 's']);
    assert(norm@ =~= seq!['n', 'o', 'r', 'm']);
    assert(weight@ =~= seq!['w', 'e', 'i', 'g', 'h', 't']);
    if has_suffix(&chars, &bias) {
        return ParameterInit::Zeros;
    }
    let found = find_from(&chars, &norm, 0);
    proof {
        lemma_first_match(chars@, norm@, 0);
    }
    if found.is_some() && has_suffix(&chars, &weight) {
        return ParameterInit::Ones;
    }
    let digest = sha256(name.as_bytes());
    ParameterInit::Normal { seed: seed_from_digest(seed, digest.as_slice()) }
}

/// The generator seed of a parameter from the experiment seed and the SHA-256
/// digest of the parameter's name: the seed combined with the digest's first
/// eight bytes read as a little-endian number.
pub fn seed_from_digest(seed: u64, digest: &[u8]) -> (res: u64)
    requires
        digest@.len() >= 8,
    ensures
        res == seed ^ (le_u64(digest@) as u64),
{
    let b = digest;
    let name_seed: u64 = (b[0] as u64) + (b[1] as u64) * 0x100 + (b[2] as u64) * 0x1_0000 + (b[3] as u64) * 0x100_0000
        + (b[4] as u64) * 0x1_0000_0000 + (b[5] as u64) * 0x100_0000_0000 + (b[6] as u64) * 0x1_0000_0000_0000
        + (b[7] as u64) * 0x100_0000_0000_0000;
    seed ^ name_seed
}

} // verus!
