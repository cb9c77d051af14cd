//! Text built from parts.
use crate::primitives::ShieldedPool;
use vstd::prelude::*;
use vstd::string::StringExecFns;

verus! {

/// A decimal digit.
pub open spec fn digit(d: int) -> char {
    if d == 0 {
        '0'
    } else if d == 1 {
        '1'
    } else if d == 2 {
        '2'
    } else if d == 3 {
        '3'
    } else if d == 4 {
        '4'
    } else if d == 5 {
        '5'
    } else if d == 6 {
        '6'
    } else if d == 7 {
        '7'
    } else if d == 8 {
        '8'
    } else {
        '9'
    }
}

/// A number in decimal.
pub open spec fn decimal(n: nat) -> Seq<char>
    decreases n,
{
    if n < 10 {
        seq![digit(n as int)]
    } else {
        decimal(n / 10).push(digit((n % 10) as int))
    }
}

/// A number below 16 in hexadecimal.
pub open spec fn hex_digit(d: int) -> char {
    if d < 10 {
        digit(d)
    } else if d == 10 {
        'a'
    } else if d == 11 {
        'b'
    } else if d == 12 {
        'c'
    } else if d == 13 {
        'd'
    } else if d == 14 {
        'e'
    } else {
        'f'
    }
}

/// The bytes in hexadecimal, from the last to the first.
pub open spec fn reversed_hex(bytes: Seq<u8>) -> Seq<char>
    decreases bytes.len(),
{
    if bytes.len() == 0 {
        Seq::empty()
    } else {
        seq![hex_digit(bytes.last() as int / 16), hex_digit(bytes.last() as int % 16)] + reversed_hex(
            bytes.drop_last(),
        )
    }
}

/// Appends text.
pub fn push_text(out: &mut String, text: &str)
    ensures
        final(out)@ == old(out)@ + text@,
{
    out.append(text);
}

fn push_hex_digit(out: &mut String, d: u8)
    requires
        d < 16,
    ensures
        final(out)@ == old(out)@.push(hex_digit(d as int)),
{
    proof {
        reveal_strlit("0");
        reveal_strlit("1");
        reveal_strlit("2");
        reveal_strlit("3");
        reveal_strlit("4");
        reveal_strlit("5");
        reveal_strlit("6");
        reveal_strlit("7");
        reveal_strlit("8");
        reveal_strlit("9");
        reveal_strlit("a");
        reveal_strlit("b");
        reveal_strlit("c");
        reveal_strlit("d");
        reveal_strlit("e");
        reveal_strlit("f");
    }
    let ghost before = out@;
    let text = if d == 0 {
        "0"
    } else if d == 1 {
        "1"
    } else if d == 2 {
        "2"
    } else if d == 3 {
        "3"
    } else if d == 4 {
        "4"
    } else if d == 5 {
        "5"
    } else if d == 6 {
        "6"
    } else if d == 7 {
        "7"
    } else if d == 8 {
        "8"
    } else if d == 9 {
        "9"
    } else if d == 10 {
        "a"
    } else if d == 11 {
        "b"
    } else if d == 12 {
        "c"
    } else if d == 13 {
        "d"
    } else if d == 14 {
        "e"
    } else {
        "f"
    };
    out.append(text);
    assert(out@ =~= before.push(hex_digit(d as int)));
}

/// Appends a number in decimal.
pub fn push_decimal(out: &mut String, n: u64)
    ensures
        final(out)@ == old(out)@ + decimal(n as nat),
    decreases n,
{
    let ghost before = out@;
    if n < 10 {
        push_hex_digit(out, n as u8);
        assert(out@ =~= before + decimal(n as nat));
    } else {
        push_decimal(out, n / 10);
        push_hex_digit(out, (n % 10) as u8);
        assert(out@ =~= before + decimal(n as nat));
    }
}

/// Appends bytes in hexadecimal, from the last to the first.
pub fn push_reversed_hex(out: &mut String, bytes: &[u8; 32])
    ensures
        final(out)@ == old(out)@ + reversed_hex(bytes@),
{
    let ghost before = out@;
    let mut i: usize = 32;
    assert(bytes@.take(32) =~= bytes@);
    while i > 0
        invariant
            i <= 32,
            before + reversed_hex(bytes@) == out@ + reversed_hex(bytes@.take(i as int)),
        decreases i,
    {
        let ghost so_far = out@;
        let byte = bytes[i - 1];
        push_hex_digit(out, byte / 16);
        push_hex_digit(out, byte % 16);
        proof {
            let shown = bytes@.take(i as int);
            assert(shown.last() == byte);
            assert(shown.drop_last() =~= bytes@.take(i - 1));
            assert(out@ =~= so_far + seq![hex_digit(byte as int / 16), hex_digit(byte as int % 16)]);
            assert(out@ + reversed_hex(bytes@.take(i - 1)) =~= so_far + reversed_hex(shown));
        }
        i = i - 1;
        proof {
            if i == 0 {
                assert(out@ + reversed_hex(bytes@.take(0)) =~= out@);
            }
        }
    }
    assert(bytes@.take(0) =~= Seq::empty());
    assert(out@ + Seq::<char>::empty() =~= out@);
}

/// The name of a pool.
pub open spec fn pool_name(pool: ShieldedPool) -> Seq<char> {
    match pool {
        ShieldedPool::Sapling => "Sapling"@,
        ShieldedPool::Orchard => "Orchard"@,
        ShieldedPool::Ironwood => "Ironwood"@,
    }
}

/// Appends the name of a pool.
pub fn push_pool(out: &mut String, pool: ShieldedPool)
    ensures
        final(out)@ == old(out)@ + pool_name(pool),
{
    match pool {
        ShieldedPool::Sapling => out.append("Sapling"),
        ShieldedPool::Orchard => out.append("Orchard"),
        ShieldedPool::Ironwood => out.append("Ironwood"),
    }
}

} // verus!
