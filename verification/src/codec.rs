use vstd::prelude::*;

use crate::event::append_bytes;

verus! {

/// The hexadecimal digit for a value below sixteen.
pub open spec fn hex_digit(n: nat) -> char {
    if n == 0 {
        '0'
    } else if n == 1 {
        '1'
    } else if n == 2 {
        '2'
    } else if n == 3 {
        '3'
    } else if n == 4 {
        '4'
    } else if n == 5 {
        '5'
    } else if n == 6 {
        '6'
    } else if n == 7 {
        '7'
    } else if n == 8 {
        '8'
    } else if n == 9 {
        '9'
    } else if n == 10 {
        'a'
    } else if n == 11 {
        'b'
    } else if n == 12 {
        'c'
    } else if n == 13 {
        'd'
    } else if n == 14 {
        'e'
    } else {
        'f'
    }
}

fn hex_digit_str(n: u8) -> (r: &'static str)
    requires
        n < 16,
    ensures
        r@ == seq![hex_digit(n as nat)],
{
    proof {
        reveal_strlit("0");
        reveal_strlit("1");
        reveal_strlit("2");
        reveal_strlit("3");
        reveal_strlit("4");
        reveal_strlit("5");
        reveal_strlit("6");
        reveal_strlit("7");
        reveal_strlit("8");
        reveal_strlit("9");
        reveal_strlit("a");
        reveal_strlit("b");
        reveal_strlit("c");
        reveal_strlit("d");
        reveal_strlit("e");
        reveal_strlit("f");
    }
    let r = match n {
        0 => "0",
        1 => "1",
        2 => "2",
        3 => "3",
        4 => "4",
        5 => "5",
        6 => "6",
        7 => "7",
        8 => "8",
        9 => "9",
        10 => "a",
        11 => "b",
        12 => "c",
        13 => "d",
        14 => "e",
        _ => "f",
    };
    proof {
        assert(r@ =~= seq![hex_digit(n as nat)]);
    }
    r
}

/// The object name that stands for a key: its bytes in lowercase
/// hexadecimal, two digits per byte, in key order.
pub open spec fn key_name_model(k: Seq<u8>) -> Seq<char>
    decreases k.len(),
{
    if k.len() == 0 {
        Seq::empty()
    } else {
        key_name_model(k.drop_last()) + seq![
            hex_digit((k.last() / 16) as nat),
            hex_digit((k.last() % 16) as nat),
        ]
    }
}

/// Encodes a key as its object name.
pub fn key_name(key: &[u8]) -> (r: String)
    ensures
        r@ == key_name_model(key@),
{
    let mut s = String::new();
    let n = key.len();
    proof {
        assert(s@ =~= key_name_model(key@.subrange(0, 0)));
    }
    for i in 0..n
        invariant
            n == key@.len(),
            s@ == key_name_model(key@.subrange(0, i as int)),
    {
        let b = key[i];
        s.append(hex_digit_str(b / 16));
        s.append(hex_digit_str(b % 16));
        proof {
            let pre = key@.subrange(0, i as int);
            let post = key@.subrange(0, i as int + 1);
            assert(post.drop_last() =~= pre);
            assert(post.last() == key@[i as int]);
            assert(s@ =~= key_name_model(post));
        }
    }
    proof {
        assert(key@.subrange(0, n as int) =~= key@);
    }
    s
}

proof fn lemma_hex_digit_injective(x: nat, y: nat)
    requires
        x < 16,
        y < 16,
        hex_digit(x) == hex_digit(y),
    ensures
        x == y,
{
}

proof fn lemma_key_name_len(k: Seq<u8>)
    ensures
        key_name_model(k).len() == 2 * k.len(),
    decreases k.len(),
{
    if k.len() > 0 {
        lemma_key_name_len(k.drop_last());
    }
}

/// Law: the key-to-name encoding is injective, so distinct keys address
/// distinct objects and their stored values never collide.
pub proof fn lemma_key_name_injective(a: Seq<u8>, b: Seq<u8>)
    requires
        key_name_model(a) == key_name_model(b),
    ensures
        a == b,
    decreases a.len(),
{
    lemma_key_name_len(a);
    lemma_key_name_len(b);
    if a.len() == 0 {
        assert(a =~= b);
    } else {
        let ma = key_name_model(a);
        let pa = key_name_model(a.drop_last());
        let pb = key_name_model(b.drop_last());
        lemma_key_name_len(a.drop_last());
        lemma_key_name_len(b.drop_last());
        let la = a.last();
        let lb = b.last();
        assert(ma[ma.len() - 2] == hex_digit((la / 16) as nat));
        assert(ma[ma.len() - 1] == hex_digit((la % 16) as nat));
        assert(ma[ma.len() - 2] == hex_digit((lb / 16) as nat));
        assert(ma[ma.len() - 1] == hex_digit((lb % 16) as nat));
        lemma_hex_digit_injective((la / 16) as nat, (lb / 16) as nat);
        lemma_hex_digit_injective((la % 16) as nat, (lb % 16) as nat);
        assert(la == 16 * (la / 16) + la % 16);
        assert(lb == 16 * (lb / 16) + lb % 16);
        assert(la == lb);
        assert(pa =~= pb) by {
            assert forall|i: int| 0 <= i < pa.len() implies pa[i] == pb[i] by {
                assert(ma[i] == pa[i]);
                assert(ma[i] == pb[i]);
            }
        }
        lemma_key_name_injective(a.drop_last(), b.drop_last());
        assert forall|i: int| 0 <= i < a.len() implies a[i] == b[i] by {
            if i < a.len() - 1 {
                assert(a.drop_last()[i] == a[i]);
                assert(b.drop_last()[i] == b[i]);
            } else {
                assert(a[i] == a.last());
                assert(b[i] == b.last());
            }
        }
        assert(a =~= b);
    }
}

/// A length, as eight little-endian bytes.
pub open spec fn len_bytes(n: u64) -> Seq<u8> {
    seq![
        (n & 0xff) as u8,
        ((n >> 8) & 0xff) as u8,
        ((n >> 16) & 0xff) as u8,
        ((n >> 24) & 0xff) as u8,
        ((n >> 32) & 0xff) as u8,
        ((n >> 40) & 0xff) as u8,
        ((n >> 48) & 0xff) as u8,
        ((n >> 56) & 0xff) as u8,
    ]
}

/// The length read back from eight little-endian bytes.
pub open spec fn len_of_bytes(s: Seq<u8>) -> u64
    recommends
        s.len() == 8,
{
    (s[0] as u64) | ((s[1] as u64) << 8) | ((s[2] as u64) << 16) | ((s[3] as u64) << 24) | ((
    s[4] as u64) << 32) | ((s[5] as u64) << 40) | ((s[6] as u64) << 48) | ((s[7] as u64) << 56)
}

proof fn lemma_len_bytes_round_trip(n: u64)
    ensures
        len_of_bytes(len_bytes(n)) == n,
{
    let s = len_bytes(n);
    assert(s[0] == (n & 0xff) as u8);
    assert(s[1] == ((n >> 8) & 0xff) as u8);
    assert(s[2] == ((n >> 16) & 0xff) as u8);
    assert(s[3] == ((n >> 24) & 0xff) as u8);
    assert(s[4] == ((n >> 32) & 0xff) as u8);
    assert(s[5] == ((n >> 40) & 0xff) as u8);
    assert(s[6] == ((n >> 48) & 0xff) as u8);
    assert(s[7] == ((n >> 56) & 0xff) as u8);
    assert((((n & 0xff) as u8) as u64) | ((((n >> 8) & 0xff) as u8 as u64) << 8) | ((((n >> 16)
        & 0xff) as u8 as u64) << 16) | ((((n >> 24) & 0xff) as u8 as u64) << 24) | ((((n >> 32)
        & 0xff) as u8 as u64) << 32) | ((((n >> 40) & 0xff) as u8 as u64) << 40) | ((((n >> 48)
        & 0xff) as u8 as u64) << 48) | ((((n >> 56) & 0xff) as u8 as u64) << 56) == n)
        by (bit_vector);
}

/// A journal payload: the key's length, then the key, then the value.
pub open spec fn encode_model(k: Seq<u8>, v: Seq<u8>) -> Seq<u8> {
    len_bytes(k.len() as u64) + k + v
}

/// What a payload decodes to: the key and value it frames, or nothing if it
/// is too short for its own framing.
pub open spec fn decode_model(p: Seq<u8>) -> Option<(Seq<u8>, Seq<u8>)> {
    if p.len() < 8 {
        None
    } else {
        let n = len_of_bytes(p.subrange(0, 8));
        if p.len() - 8 < n {
            None
        } else {
            Some((p.subrange(8, 8 + n), p.subrange(8 + n, p.len() as int)))
        }
    }
}

/// Encodes a key-value pair as a journal payload.
pub fn encode_entry(key: &[u8], value: &[u8]) -> (r: Vec<u8>)
    ensures
        r@ == encode_model(key@, value@),
{
    let n = key.len() as u64;
    let mut out: Vec<u8> = Vec::new();
    out.push((n & 0xff) as u8);
    out.push(((n >> 8) & 0xff) as u8);
    out.push(((n >> 16) & 0xff) as u8);
    out.push(((n >> 24) & 0xff) as u8);
    out.push(((n >> 32) & 0xff) as u8);
    out.push(((n >> 40) & 0xff) as u8);
    out.push(((n >> 48) & 0xff) as u8);
    out.push(((n >> 56) & 0xff) as u8);
    proof {
        assert(out@ =~= len_bytes(n));
    }
    append_bytes(&mut out, key);
    append_bytes(&mut out, value);
    proof {
        assert(out@ =~= encode_model(key@, value@));
    }
    out
}

fn read_len(p: &[u8]) -> (n: u64)
    requires
        p@.len() >= 8,
    ensures
        n == len_of_bytes(p@.subrange(0, 8)),
{
    let n = (p[0] as u64) | ((p[1] as u64) << 8) | ((p[2] as u64) << 16) | ((p[3] as u64) << 24) | (
    (p[4] as u64) << 32) | ((p[5] as u64) << 40) | ((p[6] as u64) << 48) | ((p[7] as u64) << 56);
    proof {
        let s = p@.subrange(0, 8);
        assert(s[0] == p@[0] && s[1] == p@[1] && s[2] == p@[2] && s[3] == p@[3] && s[4] == p@[4]
            && s[5] == p@[5] && s[6] == p@[6] && s[7] == p@[7]);
    }
    n
}

/// Decodes a journal payload back into the key-value pair it frames.
pub fn decode_entry(p: &[u8]) -> (r: Option<(Vec<u8>, Vec<u8>)>)
    ensures
        r is Some <==> decode_model(p@) is Some,
        r matches Some(kv) ==> decode_model(p@) matches Some(m) && kv.0@ == m.0 && kv.1@ == m.1,
{
    if p.len() < 8 {
        return None;
    }
    let n64 = read_len(p);
    if n64 > (p.len() - 8) as u64 {
        return None;
    }
    let n = n64 as usize;
    let mut key: Vec<u8> = Vec::new();
    for i in 0..n
        invariant
            n + 8 <= p@.len() <= usize::MAX,
            key@ == p@.subrange(8, 8 + i as int),
    {
        key.push(p[8 + i]);
        proof {
            assert(p@.subrange(8, 8 + i as int + 1) =~= p@.subrange(8, 8 + i as int).push(
                p@[8 + i],
            ));
        }
    }
    let mut value: Vec<u8> = Vec::new();
    let m = p.len();
    for i in (8 + n)..m
        invariant
            n + 8 <= m <= p@.len(),
            m == p@.len(),
            8 + n <= i <= m,
            value@ == p@.subrange(8 + n as int, i as int),
    {
        value.push(p[i]);
        proof {
            assert(p@.subrange(8 + n as int, i as int + 1) =~= p@.subrange(
                8 + n as int,
                i as int,
            ).push(p@[i as int]));
        }
    }
    proof {
        assert(key@ =~= p@.subrange(8, 8 + n as int));
        assert(value@ =~= p@.subrange(8 + n as int, p@.len() as int));
    }
    Some((key, value))
}

/// Law: decoding inverts encoding, so a journal payload written by a put
/// recovers exactly the key and value that were written.
pub proof fn lemma_entry_round_trip(k: Seq<u8>, v: Seq<u8>)
    requires
        k.len() <= u64::MAX,
    ensures
        decode_model(encode_model(k, v)) == Some((k, v)),
{
    let p = encode_model(k, v);
    assert(p.subrange(0, 8) =~= len_bytes(k.len() as u64));
    lemma_len_bytes_round_trip(k.len() as u64);
    assert(p.subrange(8, 8 + k.len() as int) =~= k);
    assert(p.subrange(8 + k.len() as int, p.len() as int) =~= v);
}

} // verus!
