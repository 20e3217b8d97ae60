//! Identifier codec: a creation instant (nanoseconds since the Unix epoch) is
//! turned into a fixed-width base-36 key whose lexicographic order is the
//! reverse of chronological order, so that an ordered store can reach old
//! records by an ascending range walk without touching fresh ones.
use vstd::prelude::*;
use vstd::string::StringExecFns;
use vstd::arithmetic::div_mod::{
    lemma_fundamental_div_mod, lemma_div_denominator, lemma_div_is_ordered,
    lemma_multiply_divide_lt, lemma_mod_division_less_than_divisor,
};

verus! {

/// Large constant the timestamp is subtracted from; it inverts chronological
/// order into key order and stays non-negative for any instant before the
/// year 2286.
pub const ID_BASE: u64 = 9999999999999999999;

/// Number of base-36 digits of an identifier: every value up to `u64::MAX`
/// (and so every possible key) fits in 13 digits.
pub const ID_WIDTH: usize = 13;

/// 36 raised to the power `e`.
pub open spec fn pow36(e: nat) -> nat
    decreases e,
{
    if e == 0 {
        1
    } else {
        36 * pow36((e - 1) as nat)
    }
}

/// The character standing for one base-36 digit: `0`-`9` then `a`-`z`,
/// chosen so that digit order agrees with character-code order.
pub open spec fn digit_char(d: nat) -> char {
    if d < 10 {
        (d + 48) as char
    } else {
        (d + 87) as char
    }
}

/// The fixed-width base-36 rendering of `k`, most significant digit first.
pub open spec fn id_chars(k: nat, width: nat) -> Seq<char>
    decreases width,
{
    if width == 0 {
        Seq::empty()
    } else {
        id_chars(k / 36, (width - 1) as nat).push(digit_char(k % 36))
    }
}

/// The identifier of a transaction created `nanos` nanoseconds after the
/// epoch: the base-36 rendering of `ID_BASE - nanos`.
pub open spec fn spec_id(nanos: u64) -> Seq<char>
    recommends
        nanos <= ID_BASE,
{
    id_chars((ID_BASE - nanos) as nat, ID_WIDTH as nat)
}

/// Strict lexicographic order on character sequences, with a shorter
/// sequence ordering before any proper extension of it.
pub open spec fn lex_lt(a: Seq<char>, b: Seq<char>) -> bool
    decreases b.len(),
{
    if b.len() == 0 {
        false
    } else if a.len() == 0 {
        true
    } else if (a[0] as int) < (b[0] as int) {
        true
    } else if a[0] == b[0] {
        lex_lt(a.drop_first(), b.drop_first())
    } else {
        false
    }
}

proof fn lemma_digit_char_val(d: nat)
    requires
        d < 36,
    ensures
        d < 10 ==> digit_char(d) as int == d + 48,
        10 <= d ==> digit_char(d) as int == d + 87,
{
}

/// Digit order agrees with character order.
pub proof fn lemma_digit_char_lt(d1: nat, d2: nat)
    requires
        d1 < d2 < 36,
    ensures
        (digit_char(d1) as int) < (digit_char(d2) as int),
{
    lemma_digit_char_val(d1);
    lemma_digit_char_val(d2);
}

pub proof fn lemma_pow36_pos(e: nat)
    ensures
        pow36(e) >= 1,
    decreases e,
{
    if e > 0 {
        lemma_pow36_pos((e - 1) as nat);
    }
}

pub proof fn lemma_pow36_monotone(e1: nat, e2: nat)
    requires
        e1 <= e2,
    ensures
        pow36(e1) <= pow36(e2),
    decreases e2,
{
    if e1 < e2 {
        lemma_pow36_monotone(e1, (e2 - 1) as nat);
        lemma_pow36_pos((e2 - 1) as nat);
    }
}

/// Concrete values of the powers the executable code leans on; in
/// particular every key (at most `ID_BASE`) fits in `ID_WIDTH` digits.
pub proof fn lemma_pow36_values()
    ensures
        pow36(12) == 4738381338321616896,
        pow36(13) == 170581728179578208256,
        ID_BASE < pow36(13),
{
    assert(pow36(0) == 1);
    assert(pow36(1) == 36);
    assert(pow36(2) == 1296);
    assert(pow36(3) == 46656);
    assert(pow36(4) == 1679616);
    assert(pow36(5) == 60466176);
    assert(pow36(6) == 2176782336);
    assert(pow36(7) == 78364164096);
    assert(pow36(8) == 2821109907456);
    assert(pow36(9) == 101559956668416);
    assert(pow36(10) == 3656158440062976);
    assert(pow36(11) == 131621703842267136);
    assert(pow36(12) == 4738381338321616896);
    assert(pow36(13) == 170581728179578208256);
}

pub proof fn lemma_id_chars_len(k: nat, width: nat)
    ensures
        id_chars(k, width).len() == width,
    decreases width,
{
    if width > 0 {
        lemma_id_chars_len(k / 36, (width - 1) as nat);
    }
}

proof fn lemma_lex_push_eq(a: Seq<char>, x: char, y: char)
    requires
        (x as int) < (y as int),
    ensures
        lex_lt(a.push(x), a.push(y)),
    decreases a.len(),
{
    if a.len() == 0 {
        assert(a.push(x)[0] == x);
        assert(a.push(y)[0] == y);
    } else {
        assert(a.push(x).drop_first() =~= a.drop_first().push(x));
        assert(a.push(y).drop_first() =~= a.drop_first().push(y));
        lemma_lex_push_eq(a.drop_first(), x, y);
        assert(a.push(x)[0] == a[0]);
        assert(a.push(y)[0] == a[0]);
    }
}

proof fn lemma_lex_push_lt(a: Seq<char>, b: Seq<char>, x: char, y: char)
    requires
        lex_lt(a, b),
        a.len() == b.len(),
    ensures
        lex_lt(a.push(x), b.push(y)),
    decreases b.len(),
{
    assert(b.len() > 0);
    assert(a.push(x)[0] == a[0]);
    assert(b.push(y)[0] == b[0]);
    if a[0] == b[0] {
        assert(a.push(x).drop_first() =~= a.drop_first().push(x));
        assert(b.push(y).drop_first() =~= b.drop_first().push(y));
        lemma_lex_push_lt(a.drop_first(), b.drop_first(), x, y);
    }
}

proof fn lemma_lex_irrefl(a: Seq<char>)
    ensures
        !lex_lt(a, a),
    decreases a.len(),
{
    if a.len() > 0 {
        lemma_lex_irrefl(a.drop_first());
    }
}

/// The fixed-width rendering is strictly monotone: a smaller key gives a
/// lexicographically smaller identifier.
pub proof fn lemma_id_chars_lt(k1: nat, k2: nat, width: nat)
    requires
        k1 < k2,
        k2 < pow36(width),
    ensures
        lex_lt(id_chars(k1, width), id_chars(k2, width)),
    decreases width,
{
    if width == 0 {
        assert(false);
    } else {
        let w1 = (width - 1) as nat;
        let q1 = k1 / 36;
        let q2 = k2 / 36;
        let r1 = k1 % 36;
        let r2 = k2 % 36;
        lemma_fundamental_div_mod(k1 as int, 36);
        lemma_fundamental_div_mod(k2 as int, 36);
        lemma_mod_division_less_than_divisor(k1 as int, 36);
        lemma_mod_division_less_than_divisor(k2 as int, 36);
        lemma_div_is_ordered(k1 as int, k2 as int, 36);
        if q1 == q2 {
            assert(r1 < r2);
            lemma_digit_char_lt(r1, r2);
            lemma_lex_push_eq(id_chars(q1, w1), digit_char(r1), digit_char(r2));
        } else {
            assert(pow36(width) == 36 * pow36(w1));
            lemma_multiply_divide_lt(k2 as int, 36, pow36(w1) as int);
            lemma_id_chars_lt(q1, q2, w1);
            lemma_id_chars_len(q1, w1);
            lemma_id_chars_len(q2, w1);
            lemma_lex_push_lt(
                id_chars(q1, w1),
                id_chars(q2, w1),
                digit_char(r1),
                digit_char(r2),
            );
        }
    }
}

/// Distinct keys give distinct identifiers.
pub proof fn lemma_id_chars_injective(k1: nat, k2: nat, width: nat)
    requires
        k1 != k2,
        k1 < pow36(width),
        k2 < pow36(width),
    ensures
        id_chars(k1, width) != id_chars(k2, width),
{
    if k1 < k2 {
        lemma_id_chars_lt(k1, k2, width);
        lemma_lex_irrefl(id_chars(k2, width));
    } else {
        lemma_id_chars_lt(k2, k1, width);
        lemma_lex_irrefl(id_chars(k1, width));
    }
}

/// Time-order law: of two identifiers, the one generated at the earlier
/// instant sorts lexicographically after the one generated later.
pub proof fn lemma_id_time_order(t1: u64, t2: u64)
    requires
        t1 < t2 <= ID_BASE,
    ensures
        lex_lt(spec_id(t2), spec_id(t1)),
{
    lemma_pow36_values();
    lemma_pow36_monotone(13, ID_WIDTH as nat);
    lemma_id_chars_lt((ID_BASE - t2) as nat, (ID_BASE - t1) as nat, ID_WIDTH as nat);
}

/// 36 to the power `e`, executably.
pub fn pow36_u64(e: u64) -> (r: u64)
    requires
        e <= 12,
    ensures
        r == pow36(e as nat),
        r >= 1,
{
    let mut r: u64 = 1;
    let mut j: u64 = 0;
    while j < e
        invariant
            j <= e <= 12,
            r == pow36(j as nat),
        decreases e - j,
    {
        proof {
            lemma_pow36_values();
            lemma_pow36_monotone((j + 1) as nat, 12);
            assert(pow36((j + 1) as nat) == 36 * pow36(j as nat));
        }
        r = r * 36;
        j = j + 1;
    }
    proof {
        lemma_pow36_pos(e as nat);
    }
    r
}

/// The one-character string standing for one base-36 digit.
pub fn digit_str(d: u64) -> (r: &'static str)
    requires
        d < 36,
    ensures
        r@ == seq![digit_char(d as nat)],
{
    let r: &'static str = match d {
        0 => "0",
        1 => "1",
        2 => "2",
        3 => "3",
        4 => "4",
        5 => "5",
        6 => "6",
        7 => "7",
        8 => "8",
        9 => "9",
        10 => "a",
        11 => "b",
        12 => "c",
        13 => "d",
        14 => "e",
        15 => "f",
        16 => "g",
        17 => "h",
        18 => "i",
        19 => "j",
        20 => "k",
        21 => "l",
        22 => "m",
        23 => "n",
        24 => "o",
        25 => "p",
        26 => "q",
        27 => "r",
        28 => "s",
        29 => "t",
        30 => "u",
        31 => "v",
        32 => "w",
        33 => "x",
        34 => "y",
        _ => "z",
    };
    proof {
        reveal_strlit("0");
        reveal_strlit("1");
        reveal_strlit("2");
        reveal_strlit("3");
        reveal_strlit("4");
        reveal_strlit("5");
        reveal_strlit("6");
        reveal_strlit("7");
        reveal_strlit("8");
        reveal_strlit("9");
        reveal_strlit("a");
        reveal_strlit("b");
        reveal_strlit("c");
        reveal_strlit("d");
        reveal_strlit("e");
        reveal_strlit("f");
        reveal_strlit("g");
        reveal_strlit("h");
        reveal_strlit("i");
        reveal_strlit("j");
        reveal_strlit("k");
        reveal_strlit("l");
        reveal_strlit("m");
        reveal_strlit("n");
        reveal_strlit("o");
        reveal_strlit("p");
        reveal_strlit("q");
        reveal_strlit("r");
        reveal_strlit("s");
        reveal_strlit("t");
        reveal_strlit("u");
        reveal_strlit("v");
        reveal_strlit("w");
        reveal_strlit("x");
        reveal_strlit("y");
        reveal_strlit("z");
        assert(r@ =~= seq![digit_char(d as nat)]);
    }
    r
}

proof fn lemma_id_chars_zero(k: nat)
    ensures
        id_chars(k, 0) == Seq::<char>::empty(),
{
}

/// Renders the identifier of a transaction created `nanos` nanoseconds
/// after the epoch: `ID_WIDTH` base-36 digits of `ID_BASE - nanos`, most
/// significant first, zero-padded so that string comparison agrees with
/// numeric comparison.
pub fn generate_id(nanos: u64) -> (r: String)
    requires
        nanos <= ID_BASE,
    ensures
        r@ == spec_id(nanos),
        r@.len() == ID_WIDTH,
{
    let key: u64 = ID_BASE - nanos;
    let mut s = String::new();
    proof {
        assert(s@ =~= Seq::<char>::empty());
        lemma_id_chars_zero((key as nat) / pow36(13));
    }
    let mut i: usize = 0;
    while i < ID_WIDTH
        invariant
            i <= 13,
            nanos <= ID_BASE,
            key == ID_BASE - nanos,
            s@ == id_chars((key as nat) / pow36((13 - i) as nat), i as nat),
        decreases 13 - i,
    {
        let p: u64 = pow36_u64((12 - i) as u64);
        let d: u64 = (key / p) % 36;
        proof {
            let wrem = (12 - i) as nat;
            lemma_pow36_pos(wrem);
            lemma_div_denominator(key as int, pow36(wrem) as int, 36);
            assert(pow36((13 - i) as nat) == 36 * pow36(wrem));
            let q = (key as nat) / pow36(wrem);
            assert(id_chars(q, (i + 1) as nat) == id_chars(q / 36, i as nat).push(
                digit_char(q % 36),
            ));
            assert(id_chars(q / 36, i as nat).push(digit_char(q % 36)) =~= id_chars(
                q / 36,
                i as nat,
            ) + seq![digit_char(q % 36)]);
        }
        s.append(digit_str(d));
        i = i + 1;
    }
    proof {
        assert(pow36(0) == 1);
        assert((key as nat) / 1 == key as nat);
        lemma_id_chars_len(key as nat, 13);
    }
    s
}

} // verus!
