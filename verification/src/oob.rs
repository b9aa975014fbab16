//! Out-of-band allgather: every process publishes a chunk under a key of its
//! own, and places the chunks of all processes one after the other.
use vstd::arithmetic::div_mod::lemma_div_denominator;
use vstd::arithmetic::power::{lemma_pow0, lemma_pow1, lemma_pow_positive, pow};
use vstd::prelude::*;
use vstd::string::StringSliceAdditionalSpecFns;

verus! {

/// Prefix of the keys of the allgather.
pub const OOB_KEY_PREFIX: &'static str = "gups.ucc.oob.";

/// The ASCII digits of `n` in base ten.
pub open spec fn decimal(n: nat) -> Seq<u8>
    decreases n,
{
    if n < 10 {
        seq![(48 + n) as u8]
    } else {
        decimal(n / 10).push((48 + n % 10) as u8)
    }
}

/// The bytes of `OOB_KEY_PREFIX`.
pub open spec fn prefix_bytes() -> Seq<u8> {
    Seq::new(OOB_KEY_PREFIX@.len(), |i: int| OOB_KEY_PREFIX@[i] as u8)
}

/// Key of the chunk that process `rank` publishes in allgather number
/// `call_id`: the prefix, the two numbers, and a full stop between them.
pub open spec fn key_bytes(call_id: nat, rank: nat) -> Seq<u8> {
    prefix_bytes() + decimal(call_id) + seq![46u8] + decimal(rank)
}

/// Append the digits of `n`.
fn push_decimal(out: &mut Vec<u8>, n: u64)
    ensures
        final(out)@ == old(out)@ + decimal(n as nat),
    decreases n,
{
    if n >= 10 {
        push_decimal(out, n / 10);
    }
    out.push((48 + n % 10) as u8);
    assert(out@ =~= old(out)@ + decimal(n as nat));
}

/// Key of the chunk that process `rank` publishes in allgather number
/// `call_id`.
pub fn oob_key(call_id: u64, rank: u32) -> (key: Vec<u8>)
    ensures
        key@ == key_bytes(call_id as nat, rank as nat),
{
    proof {
        lemma_prefix_is_ascii();
    }
    let mut key: Vec<u8> = OOB_KEY_PREFIX.as_bytes_vec();
    push_decimal(&mut key, call_id);
    key.push(46);
    push_decimal(&mut key, rank as u64);
    assert(key@ =~= key_bytes(call_id as nat, rank as nat));
    key
}

proof fn lemma_prefix_is_ascii()
    ensures
        OOB_KEY_PREFIX.spec_bytes() == prefix_bytes(),
        forall|i: int| 0 <= i < prefix_bytes().len() ==> #[trigger] prefix_bytes()[i] != 0,
{
    reveal_strlit("gups.ucc.oob.");
    vstd::string::is_ascii_spec_bytes(OOB_KEY_PREFIX);
}

/// `key` followed by the zero byte that ends a C string.
pub fn c_string(key: &[u8]) -> (bytes: Vec<u8>)
    ensures
        bytes@ == key@.push(0),
{
    let mut bytes: Vec<u8> = vstd::slice::slice_to_vec(key);
    bytes.push(0);
    bytes
}

/// Place the chunk of process `peer` among chunks of `size` bytes each. A chunk
/// of another length is refused.
pub fn place_chunk(gathered: &mut [u8], size: usize, peer: usize, chunk: &[u8]) -> (placed: bool)
    requires
        (peer + 1) * size <= old(gathered)@.len(),
    ensures
        placed <==> chunk@.len() == size,
        !placed ==> final(gathered)@ == old(gathered)@,
        placed ==> final(gathered)@ == with_chunk(
            old(gathered)@,
            size as nat,
            peer as nat,
            chunk@,
        ),
        final(gathered)@.len() == old(gathered)@.len(),
        placed ==> forall|i: int|
            0 <= i < final(gathered)@.len() ==> #[trigger] final(gathered)@[i] == (if peer * size
                <= i < peer * size + size {
                chunk@[i - peer * size]
            } else {
                old(gathered)@[i]
            }),
{
    if chunk.len() != size {
        return false;
    }
    proof {
        assert((peer + 1) * size == peer * size + size) by (nonlinear_arith);
        assert(peer * size >= 0) by (nonlinear_arith);
    }
    let total: usize = gathered.len();
    let base: usize = peer * size;
    let mut i: usize = 0;
    while i < size
        invariant
            i <= size,
            size == chunk@.len(),
            total == gathered@.len(),
            total == old(gathered)@.len(),
            base == peer * size,
            base + size <= total,
            gathered@ == old(gathered)@.take(base as int) + chunk@.take(i as int) + old(
                gathered,
            )@.skip(base + i),
        decreases size - i,
    {
        gathered[base + i] = chunk[i];
        i = i + 1;
        assert(gathered@ =~= old(gathered)@.take(base as int) + chunk@.take(i as int) + old(
            gathered,
        )@.skip(base + i));
    }
    assert(chunk@.take(size as int) =~= chunk@);
    true
}

/// The number that ASCII digits write.
spec fn decimal_value(s: Seq<u8>) -> nat
    decreases s.len(),
{
    if s.len() == 0 {
        0
    } else {
        10 * decimal_value(s.drop_last()) + (s.last() - 48) as nat
    }
}

proof fn lemma_decimal(n: nat)
    ensures
        decimal(n).len() >= 1,
        decimal_value(decimal(n)) == n,
        forall|i: int| 0 <= i < decimal(n).len() ==> 48 <= #[trigger] decimal(n)[i] <= 57,
    decreases n,
{
    reveal_with_fuel(decimal_value, 2);
    if n < 10 {
        assert(decimal(n).drop_last() =~= Seq::empty());
    } else {
        lemma_decimal(n / 10);
        assert(decimal(n).drop_last() =~= decimal(n / 10));
    }
}

/// The digits of a number in base ten, from the last one: each is the rest by
/// ten of what is left of the number. There are as many as the number needs.
pub proof fn lemma_decimal_digits(n: nat, i: nat)
    requires
        i < decimal(n).len(),
    ensures
        decimal(n)[decimal(n).len() - 1 - i] == 48 + (n as int / pow(10, i)) % 10,
        n < pow(10, decimal(n).len()),
        n >= 10 ==> n >= pow(10, (decimal(n).len() - 1) as nat),
        n < 10 ==> decimal(n).len() == 1,
    decreases n,
{
    let len = decimal(n).len();
    lemma_decimal(n);
    lemma_pow0(10);
    lemma_pow1(10);
    if n >= 10 {
        let rest = decimal(n / 10);
        let (d, m) = (n as int / 10, (len - 1) as nat);
        lemma_decimal(n / 10);
        assert(decimal(n) == rest.push((48 + n % 10) as u8));
        lemma_decimal_digits(n / 10, 0);
        reveal(pow);
        assert(pow(10, len) == 10 * pow(10, m));
        assert(n < 10 * pow(10, m));
        if n / 10 >= 10 {
            assert(pow(10, m) == 10 * pow(10, (m - 1) as nat));
        }
        if i > 0 {
            let j = (i - 1) as nat;
            lemma_decimal_digits(n / 10, j);
            assert(pow(10, i) == 10 * pow(10, j));
            lemma_pow_positive(10, j);
            lemma_div_denominator(n as int, 10, pow(10, j));
        }
    }
}

/// A key is the text `gups.ucc.oob.`, the number of the call, a full stop and
/// the rank.
pub proof fn lemma_key_layout(call_id: nat, rank: nat)
    ensures
        key_bytes(call_id, rank) == seq![
            103u8, 117u8, 112u8, 115u8, 46u8, 117u8, 99u8, 99u8, 46u8, 111u8, 111u8, 98u8, 46u8,
        ] + decimal(call_id) + seq![46u8] + decimal(rank),
{
    reveal_strlit("gups.ucc.oob.");
    assert(prefix_bytes() =~= seq![
        103u8, 117u8, 112u8, 115u8, 46u8, 117u8, 99u8, 99u8, 46u8, 111u8, 111u8, 98u8, 46u8,
    ]);
}

/// No two chunks share a key: not in one allgather, and not in two.
pub proof fn lemma_keys_are_distinct(call_a: nat, rank_a: nat, call_b: nat, rank_b: nat)
    requires
        key_bytes(call_a, rank_a) == key_bytes(call_b, rank_b),
    ensures
        call_a == call_b,
        rank_a == rank_b,
{
    let (a, b) = (decimal(call_a), decimal(call_b));
    let (ka, kb) = (key_bytes(call_a, rank_a), key_bytes(call_b, rank_b));
    let p = prefix_bytes().len() as int;
    lemma_decimal(call_a);
    lemma_decimal(call_b);
    lemma_decimal(rank_a);
    lemma_decimal(rank_b);
    assert(ka[p + a.len()] == 46);
    assert(kb[p + b.len()] == 46);
    if a.len() < b.len() {
        assert(kb[p + a.len()] == b[a.len() as int]);
    }
    if b.len() < a.len() {
        assert(ka[p + b.len()] == a[b.len() as int]);
    }
    assert(a =~= ka.subrange(p, p + a.len()));
    assert(b =~= kb.subrange(p, p + b.len()));
    assert(decimal(rank_a) =~= ka.skip(p + a.len() + 1));
    assert(decimal(rank_b) =~= kb.skip(p + b.len() + 1));
}

/// A key holds no zero byte, so it can stand in a C string.
pub proof fn lemma_keys_hold_no_zero(call_id: nat, rank: nat)
    ensures
        !key_bytes(call_id, rank).contains(0u8),
{
    lemma_decimal(call_id);
    lemma_decimal(rank);
    lemma_prefix_is_ascii();
    let key = key_bytes(call_id, rank);
    let (p, d) = (prefix_bytes(), decimal(call_id));
    assert forall|i: int| 0 <= i < key.len() implies #[trigger] key[i] != 0 by {
        if i < p.len() {
            assert(key[i] == p[i]);
        } else if i < p.len() + d.len() {
            assert(key[i] == d[i - p.len()]);
        } else if i > p.len() + d.len() {
            assert(key[i] == decimal(rank)[i - p.len() - d.len() - 1]);
        }
    }
}

/// The chunks one after the other.
pub open spec fn joined(chunks: Seq<Seq<u8>>) -> Seq<u8>
    decreases chunks.len(),
{
    if chunks.len() == 0 {
        Seq::empty()
    } else {
        joined(chunks.drop_last()) + chunks.last()
    }
}

/// The bytes after the chunk of process `peer` is placed in `gathered`.
pub open spec fn with_chunk(gathered: Seq<u8>, size: nat, peer: nat, chunk: Seq<u8>) -> Seq<u8> {
    gathered.take((peer * size) as int) + chunk + gathered.skip(((peer + 1) * size) as int)
}

/// The bytes after the chunks of the first `k` processes are placed.
pub open spec fn with_chunks(
    gathered: Seq<u8>,
    size: nat,
    chunks: Seq<Seq<u8>>,
    k: nat,
) -> Seq<u8>
    decreases k,
{
    if k == 0 {
        gathered
    } else {
        with_chunk(
            with_chunks(gathered, size, chunks, (k - 1) as nat),
            size,
            (k - 1) as nat,
            chunks[k - 1],
        )
    }
}

/// The allgather gives every process the chunks of all, in the order of their
/// ranks.
pub proof fn lemma_allgather(gathered: Seq<u8>, size: nat, chunks: Seq<Seq<u8>>)
    requires
        gathered.len() == chunks.len() * size,
        forall|p: int| 0 <= p < chunks.len() ==> (#[trigger] chunks[p]).len() == size,
    ensures
        with_chunks(gathered, size, chunks, chunks.len()) == joined(chunks),
{
    lemma_allgather_prefix(gathered, size, chunks, chunks.len());
    assert(chunks.take(chunks.len() as int) =~= chunks);
    let n = chunks.len();
    assert(gathered.skip((n * size) as int) =~= Seq::empty());
}

proof fn lemma_allgather_prefix(gathered: Seq<u8>, size: nat, chunks: Seq<Seq<u8>>, k: nat)
    requires
        k <= chunks.len(),
        gathered.len() == chunks.len() * size,
        forall|p: int| 0 <= p < chunks.len() ==> (#[trigger] chunks[p]).len() == size,
    ensures
        joined(chunks.take(k as int)).len() == k * size,
        with_chunks(gathered, size, chunks, k) == joined(chunks.take(k as int)) + gathered.skip(
            (k * size) as int,
        ),
    decreases k,
{
    let n = chunks.len();
    if k == 0 {
        assert(0 * size == 0) by (nonlinear_arith);
        assert(gathered.skip(0) =~= gathered);
    } else {
        let j = (k - 1) as nat;
        lemma_allgather_prefix(gathered, size, chunks, j);
        assert(k * size == j * size + size) by (nonlinear_arith)
            requires
                k == j + 1,
        ;
        assert(k * size <= n * size) by (nonlinear_arith)
            requires
                k <= n,
        ;
        let front = joined(chunks.take(j as int));
        let before = with_chunks(gathered, size, chunks, j);
        assert(chunks.take(k as int).drop_last() =~= chunks.take(j as int));
        assert(before.take((j * size) as int) =~= front);
        assert(before.skip((k * size) as int) =~= gathered.skip((k * size) as int));
    }
}

} // verus!
