use vstd::prelude::*;

use crate::matrix::{zero_lanes, Lanes, Matrix};

verus! {

/// Number of rounds in one application of the permutation.
pub const ROUNDS: usize = 10;

/// The constant injected into lane (0, 0) by each round.
pub const R: [u16; 10] = [
    0x3EC2, 0x738D, 0xB119, 0xC5E7, 0x86C6, 0xDC1B, 0x57D6, 0xDA3A, 0x7710, 0x9200,
];

/// Left rotation of a 16-bit word by `n < 16` bits.
pub open spec fn rotl(x: u16, n: u32) -> u16 {
    if n == 0 {
        x
    } else {
        ((x << n) | (x >> ((16 - n) as u32))) as u16
    }
}

fn rotate_left(x: u16, n: u32) -> (r: u16)
    requires
        n < 16,
    ensures
        r == rotl(x, n),
{
    if n == 0 {
        x
    } else {
        (x << n) | (x >> (16 - n))
    }
}

/// Parity of row `i`: the XOR of its five lanes.
pub open spec fn parity(s: Lanes, i: int) -> u16 {
    s[i][0] ^ s[i][1] ^ s[i][2] ^ s[i][3] ^ s[i][4]
}

/// The word that diffusion XORs into every lane of row `i`.
pub open spec fn diffusion_word(s: Lanes, i: int) -> u16 {
    parity(s, (i + 4) % 5) ^ rotl(parity(s, (i + 1) % 5), 1)
}

/// Diffusion (theta).
pub open spec fn theta(s: Lanes) -> Lanes {
    Seq::new(5, |i: int| Seq::new(5, |j: int| s[i][j] ^ diffusion_word(s, i)))
}

/// Rotation: lane (i, j) turns left by (7i + j) mod 16 bits.
pub open spec fn rho(s: Lanes) -> Lanes {
    Seq::new(5, |i: int| Seq::new(5, |j: int| rotl(s[i][j], ((7 * i + j) % 16) as u32)))
}

/// Permutation (pi): lane (i, j) moves to ((3i + 2j) mod 5, i); read backwards,
/// position (x, y) receives lane (y, (3x + y) mod 5).
pub open spec fn pi(s: Lanes) -> Lanes {
    Seq::new(5, |x: int| Seq::new(5, |y: int| s[y][(3 * x + y) % 5]))
}

/// Non-linear mixing (chi).
pub open spec fn chi(s: Lanes) -> Lanes {
    Seq::new(
        5,
        |i: int| Seq::new(5, |j: int| s[i][j] ^ (!s[(i + 1) % 5][j] & s[(i + 2) % 5][j])),
    )
}

/// Constant injection (iota) for round `r`.
pub open spec fn iota(s: Lanes, r: int) -> Lanes {
    s.update(0, s[0].update(0, s[0][0] ^ R[r]))
}

/// One full round, numbered `r`.
pub open spec fn round(s: Lanes, r: int) -> Lanes {
    iota(chi(pi(rho(theta(s)))), r)
}

/// The first `n` rounds, applied in order.
pub open spec fn rounds_upto(s: Lanes, n: nat) -> Lanes
    decreases n,
{
    if n == 0 {
        s
    } else {
        round(rounds_upto(s, (n - 1) as nat), n - 1)
    }
}

/// The permutation: all ten rounds.
pub open spec fn permute(s: Lanes) -> Lanes {
    rounds_upto(s, ROUNDS as nat)
}

/// The pi stage moves lane (i, j) to ((3i + 2j) mod 5, i).
pub proof fn lemma_pi_relocates(s: Lanes, i: int, j: int)
    requires
        0 <= i < 5,
        0 <= j < 5,
    ensures
        pi(s)[(3 * i + 2 * j) % 5][i] == s[i][j],
{
    let x = (3 * i + 2 * j) % 5;
    assert((3 * x + i) % 5 == j) by {
        assert(0 <= x < 5);
        assert((3 * i + 2 * j) == 5 * ((3 * i + 2 * j) / 5) + x);
    }
}

fn apply_theta(a: &Matrix) -> (r: Matrix)
    ensures
        r@ == theta(a@),
{
    let mut c = [0u16; 5];
    for i in 0..5
        invariant
            forall|k: int| 0 <= k < i ==> c[k] == parity(a@, k),
    {
        c[i] = a.0[i][0] ^ a.0[i][1] ^ a.0[i][2] ^ a.0[i][3] ^ a.0[i][4];
    }
    let mut d = [0u16; 5];
    for i in 0..5
        invariant
            forall|k: int| 0 <= k < 5 ==> c[k] == parity(a@, k),
            forall|k: int| 0 <= k < i ==> d[k] == diffusion_word(a@, k),
    {
        d[i] = c[(i + 4) % 5] ^ rotate_left(c[(i + 1) % 5], 1);
    }
    let mut r = *a;
    for i in 0..5
        invariant
            forall|k: int| 0 <= k < 5 ==> d[k] == diffusion_word(a@, k),
            forall|k: int, l: int|
                0 <= k < i && 0 <= l < 5 ==> r.0[k][l] == a.0[k][l] ^ d[k],
            forall|k: int, l: int| i <= k < 5 && 0 <= l < 5 ==> r.0[k][l] == a.0[k][l],
    {
        for j in 0..5
            invariant
                0 <= i < 5,
                forall|k: int| 0 <= k < 5 ==> d[k] == diffusion_word(a@, k),
                forall|k: int, l: int|
                    0 <= k < i && 0 <= l < 5 ==> r.0[k][l] == a.0[k][l] ^ d[k],
                forall|l: int| 0 <= l < j ==> r.0[i as int][l] == a.0[i as int][l] ^ d[i as int],
                forall|k: int, l: int|
                    i <= k < 5 && 0 <= l < 5 && !(k == i && l < j) ==> r.0[k][l] == a.0[k][l],
        {
            r.0[i][j] = r.0[i][j] ^ d[i];
        }
    }
    assert(r@ =~~= theta(a@));
    r
}

fn apply_rho(a: &Matrix) -> (r: Matrix)
    ensures
        r@ == rho(a@),
{
    let mut r = *a;
    for i in 0..5
        invariant
            forall|k: int, l: int|
                0 <= k < i && 0 <= l < 5 ==> r.0[k][l] == rotl(a.0[k][l], ((7 * k + l) % 16) as u32),
            forall|k: int, l: int| i <= k < 5 && 0 <= l < 5 ==> r.0[k][l] == a.0[k][l],
    {
        for j in 0..5
            invariant
                0 <= i < 5,
                forall|k: int, l: int|
                    0 <= k < i && 0 <= l < 5 ==> r.0[k][l] == rotl(a.0[k][l], ((7 * k + l) % 16) as u32),
                forall|l: int|
                    0 <= l < j ==> r.0[i as int][l] == rotl(a.0[i as int][l], ((7 * i as int + l) % 16) as u32),
                forall|k: int, l: int|
                    i <= k < 5 && 0 <= l < 5 && !(k == i && l < j) ==> r.0[k][l] == a.0[k][l],
        {
            let by = ((7 * i + j) % 16) as u32;
            r.0[i][j] = rotate_left(r.0[i][j], by);
        }
    }
    assert(r@ =~~= rho(a@));
    r
}

fn apply_pi(a: &Matrix) -> (r: Matrix)
    ensures
        r@ == pi(a@),
{
    let mut r = Matrix::zeros();
    for x in 0..5
        invariant
            forall|k: int, l: int| 0 <= k < x && 0 <= l < 5 ==> r.0[k][l] == a.0[l][(3 * k + l) % 5],
    {
        for y in 0..5
            invariant
                0 <= x < 5,
                forall|k: int, l: int|
                    0 <= k < x && 0 <= l < 5 ==> r.0[k][l] == a.0[l][(3 * k + l) % 5],
                forall|l: int| 0 <= l < y ==> r.0[x as int][l] == a.0[l][(3 * x as int + l) % 5],
        {
            r.0[x][y] = a.0[y][(3 * x + y) % 5];
        }
    }
    assert(r@ =~~= pi(a@));
    r
}

fn apply_chi(a: &Matrix) -> (r: Matrix)
    ensures
        r@ == chi(a@),
{
    let mut r = *a;
    for i in 0..5
        invariant
            forall|k: int, l: int|
                0 <= k < i && 0 <= l < 5 ==> r.0[k][l] == a.0[k][l] ^ (!a.0[(k + 1) % 5][l] & a.0[(k
                    + 2) % 5][l]),
    {
        for j in 0..5
            invariant
                0 <= i < 5,
                forall|k: int, l: int|
                    0 <= k < i && 0 <= l < 5 ==> r.0[k][l] == a.0[k][l] ^ (!a.0[(k + 1) % 5][l]
                        & a.0[(k + 2) % 5][l]),
                forall|l: int|
                    0 <= l < j ==> r.0[i as int][l] == a.0[i as int][l] ^ (!a.0[(i as int + 1) % 5][l]
                        & a.0[(i as int + 2) % 5][l]),
        {
            r.0[i][j] = a.0[i][j] ^ (!a.0[(i + 1) % 5][j] & a.0[(i + 2) % 5][j]);
        }
    }
    assert(r@ =~~= chi(a@));
    r
}

/// Applies the ten-round permutation to the state in place.
pub fn rounds(a: &mut Matrix)
    ensures
        final(a)@ == permute(old(a)@),
{
    let ghost start = a@;
    for round in 0..ROUNDS
        invariant
            a@ == rounds_upto(start, round as nat),
    {
        let t = apply_theta(a);
        let t = apply_rho(&t);
        let t = apply_pi(&t);
        let mut t = apply_chi(&t);
        t.0[0][0] = t.0[0][0] ^ R[round];
        proof {
            let s = chi(pi(rho(theta(a@))));
            assert(t@ =~~= iota(s, round as int));
        }
        *a = t;
    }
}

/// Bytes per absorbed block.
pub const BLOCK_SIZE: usize = 20;

/// Length of the padded message for an input of `p` bytes: the smallest
/// multiple of the block size that is strictly greater than `p`.
pub open spec fn padded_len(p: nat) -> nat {
    (p / BLOCK_SIZE as nat + 1) * BLOCK_SIZE as nat
}

/// The padded message: the input, the marker byte 0x80, then zeros up to
/// the padded length.
pub open spec fn pad(x: Seq<u8>) -> Seq<u8> {
    x + seq![0x80u8] + Seq::new((padded_len(x.len()) - x.len() - 1) as nat, |k: int| 0u8)
}

/// Pads `input` in place to a whole number of blocks.
pub fn add_padding(input: &mut Vec<u8>)
    requires
        old(input).len() + BLOCK_SIZE <= usize::MAX,
    ensures
        final(input)@ == pad(old(input)@),
{
    let payload_size = input.len();
    let blocks = payload_size / BLOCK_SIZE + 1;
    let bytes = blocks * BLOCK_SIZE;
    input.resize(bytes, 0u8);
    input.set(payload_size, 0x80u8);
    assert(input@ =~= pad(old(input)@));
}

/// The big-endian 16-bit word made of bytes `k` and `k + 1` of `m`.
pub open spec fn word_at(m: Seq<u8>, k: int) -> u16 {
    (m[k] as int * 256 + m[k + 1] as int) as u16
}

/// XORs the block of `m` that starts at `off` into rows 0 and 1 of the state.
pub open spec fn mix_block(s: Lanes, m: Seq<u8>, off: int) -> Lanes {
    Seq::new(
        5,
        |i: int|
            Seq::new(
                5,
                |j: int|
                    if i == 0 {
                        s[0][j] ^ word_at(m, off + 2 * j)
                    } else if i == 1 {
                        s[1][j] ^ word_at(m, off + 10 + 2 * j)
                    } else {
                        s[i][j]
                    },
            ),
    )
}

/// The state after absorbing the first `n` blocks of `m`, from the zero state.
pub open spec fn absorb(m: Seq<u8>, n: nat) -> Lanes
    decreases n,
{
    if n == 0 {
        zero_lanes()
    } else {
        permute(mix_block(absorb(m, (n - 1) as nat), m, (n - 1) * BLOCK_SIZE as int))
    }
}

/// The eight digest words squeezed from an absorbed state: row 0, then the
/// first three lanes of row 0 after one more permutation.
pub open spec fn squeeze(s: Lanes) -> Seq<u16> {
    s[0] + permute(s)[0].subrange(0, 3)
}

/// Words written out big-endian, high byte first.
pub open spec fn be_bytes(w: Seq<u16>) -> Seq<u8> {
    Seq::new(
        2 * w.len(),
        |k: int|
            if k % 2 == 0 {
                (w[k / 2] / 256) as u8
            } else {
                (w[k / 2] % 256) as u8
            },
    )
}

/// The 16-byte digest of `x`.
pub open spec fn hash_spec(x: Seq<u8>) -> Seq<u8> {
    be_bytes(squeeze(absorb(pad(x), padded_len(x.len()) / BLOCK_SIZE as nat)))
}

/// The padding's shape: the padded message is longer than the input, a
/// whole number of blocks, starts with the input, holds 0x80 right after it
/// and zeros from there to its end.
pub proof fn lemma_padding_shape(x: Seq<u8>)
    ensures
        pad(x).len() == padded_len(x.len()),
        pad(x).len() > x.len(),
        pad(x).len() % BLOCK_SIZE as nat == 0,
        pad(x).subrange(0, x.len() as int) == x,
        pad(x)[x.len() as int] == 0x80,
        forall|k: int| x.len() < k < pad(x).len() ==> #[trigger] pad(x)[k] == 0,
{
    let p = x.len();
    assert(padded_len(p) > p && padded_len(p) % 20 == 0) by (nonlinear_arith)
        requires
            padded_len(p) == (p / 20 + 1) * 20,
    ;
    assert(pad(x).subrange(0, p as int) =~= x);
}

/// Distinct inputs never share a padded message: the padding of an input
/// determines the input.
pub proof fn lemma_padding_injective(x: Seq<u8>, y: Seq<u8>)
    requires
        pad(x) == pad(y),
    ensures
        x == y,
{
    lemma_padding_shape(x);
    lemma_padding_shape(y);
    if x.len() < y.len() {
        assert(pad(x)[y.len() as int] == 0);
    } else if y.len() < x.len() {
        assert(pad(y)[x.len() as int] == 0);
    }
}

/// The permutation keeps the shape of its row 0: five lanes.
proof fn lemma_permute_row0_len(s: Lanes)
    ensures
        permute(s)[0].len() == 5,
        permute(s).len() == 5,
{
    assert(permute(s) == round(rounds_upto(s, 9), 9));
}

/// The digest is a function of the input alone and is always 16 bytes long.
pub proof fn lemma_hash_deterministic(x: Seq<u8>, y: Seq<u8>)
    requires
        x == y,
    ensures
        hash_spec(x) == hash_spec(y),
        hash_spec(x).len() == 16,
{
    lemma_padding_shape(x);
    let n = padded_len(x.len()) / BLOCK_SIZE as nat;
    assert(n > 0);
    let m = pad(x);
    let before = mix_block(absorb(m, (n - 1) as nat), m, (n - 1) * BLOCK_SIZE as int);
    lemma_permute_row0_len(before);
    lemma_permute_row0_len(absorb(m, n));
}

fn to_array(hash: Vec<u16>) -> (r: [u8; 16])
    requires
        hash.len() == 8,
    ensures
        r@ == be_bytes(hash@),
{
    let mut r = [0u8; 16];
    for k in 0..8
        invariant
            hash.len() == 8,
            forall|t: int| 0 <= t < 2 * k ==> r[t] == be_bytes(hash@)[t],
    {
        let x = hash[k];
        let hi = ((x & 0xFF00) >> 8) as u8;
        let lo = (x & 0x00FF) as u8;
        assert(hi == (x / 256) as u8 && lo == (x % 256) as u8) by (bit_vector)
            requires
                hi == ((x & 0xFF00) >> 8) as u8,
                lo == (x & 0x00FF) as u8,
        ;
        r[2 * k] = hi;
        r[2 * k + 1] = lo;
    }
    assert(r@ =~= be_bytes(hash@));
    r
}

fn decode_word(hi: u8, lo: u8) -> (r: u16)
    ensures
        r == (hi as int * 256 + lo as int) as u16,
{
    let r = (hi as u16) << 8 | (lo as u16);
    assert(r == (hi as int * 256 + lo as int) as u16) by (bit_vector)
        requires
            r == (hi as u16) << 8 | (lo as u16),
    ;
    r
}

/// Hashes `input` to its 16-byte digest.
pub fn hash(input: Vec<u8>) -> (r: [u8; 16])
    requires
        input.len() + BLOCK_SIZE <= usize::MAX,
    ensures
        r@ == hash_spec(input@),
{
    let ghost x = input@;
    let mut input = input;
    add_padding(&mut input);
    let mut state = Matrix::zeros();
    let blocks = input.len() / BLOCK_SIZE;
    assert(input.len() == blocks * BLOCK_SIZE) by {
        assert(input@.len() == padded_len(x.len()));
    }
    for b in 0..blocks
        invariant
            input@ == pad(x),
            blocks == padded_len(x.len()) / BLOCK_SIZE as nat,
            input.len() == blocks * BLOCK_SIZE,
            state@ == absorb(input@, b as nat),
    {
        let off = b * BLOCK_SIZE;
        let ghost before = state@;
        for i in 0..5
            invariant
                input.len() == blocks * BLOCK_SIZE,
                b < blocks,
                off == b * BLOCK_SIZE,
                forall|j: int| 0 <= j < i ==> state.0[0][j] == before[0][j] ^ word_at(input@, off + 2 * j),
                forall|j: int| 0 <= j < i ==> state.0[1][j] == before[1][j] ^ word_at(input@, off + 10 + 2 * j),
                forall|j: int| i <= j < 5 ==> state.0[0][j] == before[0][j],
                forall|j: int| i <= j < 5 ==> state.0[1][j] == before[1][j],
                forall|k: int, j: int| 2 <= k < 5 && 0 <= j < 5 ==> state.0[k][j] == before[k][j],
        {
            let w0 = decode_word(input[off + 2 * i], input[off + 2 * i + 1]);
            let w1 = decode_word(input[off + 10 + 2 * i], input[off + 11 + 2 * i]);
            state.0[0][i] = state.0[0][i] ^ w0;
            state.0[1][i] = state.0[1][i] ^ w1;
        }
        assert(state@ =~~= mix_block(before, input@, off as int));
        rounds(&mut state);
    }
    let partial = state.0[0];
    let ghost absorbed = state@;
    rounds(&mut state);
    let mut words: Vec<u16> = Vec::new();
    for k in 0..5
        invariant
            words@ == partial@.subrange(0, k as int),
    {
        words.push(partial[k]);
    }
    for k in 0..3
        invariant
            words@ == partial@ + state.0[0]@.subrange(0, k as int),
    {
        words.push(state.0[0][k]);
    }
    assert(words@ =~= squeeze(absorbed));
    to_array(words)
}

} // verus!
