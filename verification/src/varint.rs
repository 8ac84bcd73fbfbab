//! The variable-length numbers in which a `.schem` file stores its palette indices: seven bits to
//! a byte, lowest first, the eighth bit set on every byte but the last.
use vstd::prelude::*;

use crate::bytes::{signed, signed8, unsigned, unsigned8};

verus! {

/// The bytes of one number.
pub open spec fn varint(v: nat) -> Seq<i8>
    decreases v,
{
    if v < 128 {
        seq![v as i8]
    } else {
        seq![signed((v % 128 + 128) as int, 256) as i8] + varint(v / 128)
    }
}

/// The bytes of a run of numbers.
pub open spec fn varints(s: Seq<u16>) -> Seq<i8>
    decreases s.len(),
{
    if s.len() == 0 {
        Seq::empty()
    } else {
        varints(s.drop_last()) + varint(s.last() as nat)
    }
}

/// The number whose group `k` of seven bits stands at `i`, from that group on, and the place
/// behind it.
pub open spec fn varint_at(b: Seq<i8>, i: int, k: nat) -> Result<(nat, int), Seq<char>>
    decreases b.len() - i,
{
    if i >= b.len() {
        Err("Unexpected end of varint data"@)
    } else if b[i] >= 0 {
        Ok((b[i] as nat, i + 1))
    } else if k >= 4 {
        Err("Varint too large"@)
    } else {
        match varint_at(b, i + 1, k + 1) {
            Err(m) => Err(m),
            Ok((n, q)) => Ok((unsigned(b[i] as int, 256) % 128 + 128 * n, q)),
        }
    }
}

/// Up to `n` numbers from `i` on, each cut to sixteen bits.
pub open spec fn varints_at(b: Seq<i8>, i: int, n: nat) -> Result<Seq<u16>, Seq<char>>
    decreases n,
{
    if i >= b.len() || n == 0 {
        Ok(Seq::empty())
    } else {
        match varint_at(b, i, 0) {
            Err(m) => Err(m),
            Ok((v, q)) => match varints_at(b, q, (n - 1) as nat) {
                Err(m) => Err(m),
                Ok(rest) => Ok(seq![(v % 65536) as u16] + rest),
            },
        }
    }
}

/// Reads one number.
fn read_varint(bytes: &[i8], start: usize) -> (r: Result<(u64, usize), String>)
    requires
        start <= bytes@.len(),
    ensures
        match (r, varint_at(bytes@, start as int, 0)) {
            (Ok((v, p)), Ok((n, q))) => v == n && p == q && start < p <= bytes@.len(),
            (Err(e), Err(m)) => e@ == m,
            _ => false,
        },
{
    let mut value: u64 = 0;
    let mut weight: u64 = 1;
    let mut k: usize = 0;
    let mut i: usize = start;
    proof {
        if let Ok((n, q)) = varint_at(bytes@, start as int, 0) {
            assert(0 + 1 * n == n);
        }
    }
    loop
        invariant
            start <= i <= bytes@.len(),
            k <= 4,
            i == start + k,
            k == 0 ==> weight == 1,
            k == 1 ==> weight == 128,
            k == 2 ==> weight == 16384,
            k == 3 ==> weight == 2097152,
            k == 4 ==> weight == 268435456,
            value < weight,
            match varint_at(bytes@, i as int, k as nat) {
                Ok((n, q)) => varint_at(bytes@, start as int, 0) == Ok::<(nat, int), Seq<char>>(
                    ((value + weight * n) as nat, q),
                ),
                Err(m) => varint_at(bytes@, start as int, 0) == Err::<(nat, int), Seq<char>>(m),
            },
        decreases bytes@.len() - i,
    {
        if i >= bytes.len() {
            return Err("Unexpected end of varint data".to_string());
        }
        let byte = bytes[i];
        if byte >= 0 {
            proof {
                assert(weight * (byte as nat) <= weight * 127) by (nonlinear_arith)
                    requires
                        0 <= byte <= 127,
                ;
            }
            return Ok((value + weight * (byte as u64), i + 1));
        }
        if k >= 4 {
            return Err("Varint too large".to_string());
        }
        let group: u64 = (unsigned8(byte) % 128) as u64;
        proof {
            assert(weight * group <= weight * 127) by (nonlinear_arith)
                requires
                    0 <= group <= 127,
            ;
            if let Ok((n, q)) = varint_at(bytes@, i + 1, (k + 1) as nat) {
                assert(value + weight * (group + 128 * n) == (value + weight * group) + (weight
                    * 128) * n) by (nonlinear_arith);
            }
        }
        value = value + weight * group;
        weight = weight * 128;
        i += 1;
        k += 1;
    }
}

/// Reads up to `expected_len` numbers, each cut to sixteen bits; fewer where the bytes end first.
pub fn decode_varint_array(bytes: &[i8], expected_len: usize) -> (r: Result<Vec<u16>, String>)
    ensures
        match (r, varints_at(bytes@, 0, expected_len as nat)) {
            (Ok(v), Ok(s)) => v@ == s,
            (Err(e), Err(m)) => e@ == m,
            _ => false,
        },
{
    let mut result: Vec<u16> = Vec::new();
    let mut i: usize = 0;
    proof {
        if let Ok(rest) = varints_at(bytes@, 0, expected_len as nat) {
            assert(result@ + rest =~= rest);
        }
    }
    while i < bytes.len() && result.len() < expected_len
        invariant
            i <= bytes@.len(),
            result@.len() <= expected_len,
            match varints_at(bytes@, i as int, (expected_len - result@.len()) as nat) {
                Ok(rest) => varints_at(bytes@, 0, expected_len as nat) == Ok::<
                    Seq<u16>,
                    Seq<char>,
                >(result@ + rest),
                Err(m) => varints_at(bytes@, 0, expected_len as nat) == Err::<Seq<u16>, Seq<char>>(
                    m,
                ),
            },
        decreases bytes@.len() - i,
    {
        let ghost before = result@;
        let ghost left = (expected_len - result@.len() - 1) as nat;
        match read_varint(bytes, i) {
            Ok((value, next)) => {
                result.push((value % 65536) as u16);
                i = next;
                proof {
                    if let Ok(rest) = varints_at(bytes@, i as int, left) {
                        assert(before + (seq![(value % 65536) as u16] + rest) =~= result@ + rest);
                    }
                }
            },
            Err(e) => return Err(e),
        }
    }
    assert(result@ + Seq::<u16>::empty() =~= result@);
    Ok(result)
}

/// Writes a run of numbers.
pub fn encode_varint_array(indices: &[u16]) -> (r: Vec<i8>)
    ensures
        r@ == varints(indices@),
{
    let mut result: Vec<i8> = Vec::new();
    let mut i: usize = 0;
    assert(indices@.take(0) =~= Seq::<u16>::empty());
    while i < indices.len()
        invariant
            i <= indices@.len(),
            result@ == varints(indices@.take(i as int)),
        decreases indices@.len() - i,
    {
        let ghost head = result@;
        let mut value: u16 = indices[i];
        let ghost whole = varint(value as nat);
        assert(result@ =~= head);
        while value >= 128
            invariant
                head + whole == result@ + varint(value as nat),
            decreases value,
        {
            let ghost before = result@;
            let ghost rest = varint((value / 128) as nat);
            result.push(signed8((value % 128 + 128) as u8));
            assert(before + varint(value as nat) =~= result@ + rest);
            value = value / 128;
        }
        result.push(value as i8);
        i += 1;
        proof {
            assert(result@ =~= head + whole);
            assert(indices@.take(i as int).drop_last() =~= indices@.take(i - 1));
        }
    }
    assert(indices@.take(i as int) =~= indices@);
    result
}

/// One number reads back, wherever it stands.
proof fn lemma_varint_reads_back(b: Seq<i8>, i: int, v: nat, k: nat)
    requires
        0 <= i,
        i + varint(v).len() <= b.len(),
        b.subrange(i, i + varint(v).len()) == varint(v),
        k < 2 || v < 128,
        k == 0 ==> v < 65536,
        k == 1 ==> v < 512,
        k == 2 ==> v < 4,
        k <= 2,
    ensures
        varint_at(b, i, k) == Ok::<(nat, int), Seq<char>>((v, i + varint(v).len())),
    decreases v,
{
    let s = varint(v);
    assert(b[i] == s[0]) by {
        assert(b.subrange(i, i + s.len())[0] == s[0]);
    }
    if v >= 128 {
        let t = varint(v / 128);
        assert(b.subrange(i + 1, i + 1 + t.len()) =~= t) by {
            assert forall|j: int| 0 <= j < t.len() implies b[i + 1 + j] == t[j] by {
                assert(b.subrange(i, i + s.len())[1 + j] == s[1 + j]);
            }
        }
        lemma_varint_reads_back(b, i + 1, v / 128, k + 1);
    }
}

/// A run of numbers starts with the first of them.
proof fn lemma_varints_front(s: Seq<u16>)
    requires
        s.len() > 0,
    ensures
        varints(s) == varint(s[0] as nat) + varints(s.drop_first()),
    decreases s.len(),
{
    if s.len() == 1 {
        assert(s.drop_last() =~= Seq::empty());
        assert(s.drop_first() =~= Seq::empty());
        assert(varints(s.drop_last()) =~= Seq::<i8>::empty());
        assert(varints(s) =~= varint(s[0] as nat) + varints(s.drop_first()));
    } else {
        lemma_varints_front(s.drop_last());
        assert(s.drop_last().drop_first() =~= s.drop_first().drop_last());
        assert(s.drop_first().last() == s.last());
        assert(varints(s) =~= varint(s[0] as nat) + varints(s.drop_first()));
    }
}

/// Numbers that were written read back as they were, wherever they stand and whatever follows them.
pub proof fn law_varints_read_back(b: Seq<i8>, i: int, s: Seq<u16>)
    requires
        0 <= i,
        i + varints(s).len() <= b.len(),
        b.subrange(i, i + varints(s).len()) == varints(s),
    ensures
        varints_at(b, i, s.len()) == Ok::<Seq<u16>, Seq<char>>(s),
    decreases s.len(),
{
    if s.len() == 0 {
        assert(s =~= Seq::empty());
    } else {
        let t = s.drop_first();
        let a = varint(s[0] as nat);
        lemma_varints_front(s);
        let whole = varints(s);
        assert(b.subrange(i, i + a.len()) =~= a) by {
            assert forall|j: int| 0 <= j < a.len() implies b[i + j] == a[j] by {
                assert(b.subrange(i, i + whole.len())[j] == whole[j]);
            }
        }
        lemma_varint_reads_back(b, i, s[0] as nat, 0);
        assert(b.subrange(i + a.len(), i + a.len() + varints(t).len()) =~= varints(t)) by {
            assert forall|j: int| 0 <= j < varints(t).len() implies b[i + a.len() + j] == varints(
                t,
            )[j] by {
                assert(b.subrange(i, i + whole.len())[a.len() + j] == whole[a.len() + j]);
            }
        }
        law_varints_read_back(b, i + a.len(), t);
        assert(seq![s[0]] + t =~= s);
    }
}

/// A sixteen-bit number takes one to three bytes.
pub proof fn lemma_varints_len(s: Seq<u16>)
    ensures
        s.len() <= varints(s).len() <= 3 * s.len(),
    decreases s.len(),
{
    if s.len() > 0 {
        lemma_varints_len(s.drop_last());
        reveal_with_fuel(varint, 3);
    }
}

} // verus!
