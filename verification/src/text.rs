use vstd::prelude::*;

verus! {

/// 10 raised to the power `e`.
pub open spec fn pow10(e: nat) -> nat
    decreases e,
{
    if e == 0 {
        1
    } else {
        10 * pow10((e - 1) as nat)
    }
}

pub proof fn lemma_pow10_pos(e: nat)
    ensures
        pow10(e) >= 1,
    decreases e,
{
    if e > 0 {
        lemma_pow10_pos((e - 1) as nat);
    }
}

/// The character for a single decimal digit value below ten.
pub open spec fn digit_char(d: nat) -> char {
    if d == 0 {
        '0'
    } else if d == 1 {
        '1'
    } else if d == 2 {
        '2'
    } else if d == 3 {
        '3'
    } else if d == 4 {
        '4'
    } else if d == 5 {
        '5'
    } else if d == 6 {
        '6'
    } else if d == 7 {
        '7'
    } else if d == 8 {
        '8'
    } else {
        '9'
    }
}

pub open spec fn is_digit_char(c: char) -> bool {
    c == '0' || c == '1' || c == '2' || c == '3' || c == '4' || c == '5' || c == '6' || c == '7'
        || c == '8' || c == '9'
}

/// The numeric value of a decimal digit character.
pub open spec fn digit_val(c: char) -> nat {
    if c == '0' {
        0
    } else if c == '1' {
        1
    } else if c == '2' {
        2
    } else if c == '3' {
        3
    } else if c == '4' {
        4
    } else if c == '5' {
        5
    } else if c == '6' {
        6
    } else if c == '7' {
        7
    } else if c == '8' {
        8
    } else {
        9
    }
}

pub open spec fn all_digits(s: Seq<char>) -> bool {
    forall|i: int| 0 <= i < s.len() ==> is_digit_char(#[trigger] s[i])
}

/// The shortest decimal digit string of a natural number ("0" for zero).
pub open spec fn dec_digits(n: nat) -> Seq<char>
    decreases n,
{
    if n < 10 {
        seq![digit_char(n)]
    } else {
        dec_digits(n / 10) + seq![digit_char(n % 10)]
    }
}

/// The digit string of `n`, left-padded with zeros to at least `width` characters.
pub open spec fn padded_digits(n: nat, width: nat) -> Seq<char> {
    if dec_digits(n).len() >= width {
        dec_digits(n)
    } else {
        Seq::new((width - dec_digits(n).len()) as nat, |i: int| '0') + dec_digits(n)
    }
}

/// The number denoted by a digit string, most significant digit first.
pub open spec fn num_of(s: Seq<char>) -> nat
    decreases s.len(),
{
    if s.len() == 0 {
        0
    } else {
        10 * num_of(s.drop_last()) + digit_val(s.last())
    }
}

/// The characters of a reversed digit-value sequence (least significant first).
pub open spec fn rev_digit_chars(ds: Seq<u8>) -> Seq<char>
    decreases ds.len(),
{
    if ds.len() == 0 {
        Seq::empty()
    } else {
        rev_digit_chars(ds.skip(1)) + seq![digit_char(ds[0] as nat)]
    }
}

pub proof fn lemma_rev_digit_chars_push(ds: Seq<u8>, d: u8)
    ensures
        rev_digit_chars(ds.push(d)) == seq![digit_char(d as nat)] + rev_digit_chars(ds),
    decreases ds.len(),
{
    if ds.len() == 0 {
        assert(ds.push(d)[0] == d);
        assert(ds.push(d).skip(1) =~= Seq::<u8>::empty());
        assert(rev_digit_chars(ds.push(d)) == rev_digit_chars(Seq::<u8>::empty()) + seq![
            digit_char(d as nat),
        ]);
        assert(rev_digit_chars(Seq::<u8>::empty()) + seq![digit_char(d as nat)] =~= seq![
            digit_char(d as nat),
        ] + rev_digit_chars(ds));
    } else {
        assert(ds.push(d).skip(1) =~= ds.skip(1).push(d));
        lemma_rev_digit_chars_push(ds.skip(1), d);
        assert(rev_digit_chars(ds.push(d)) == rev_digit_chars(ds.skip(1).push(d)) + seq![
            digit_char(ds[0] as nat),
        ]);
        assert((seq![digit_char(d as nat)] + rev_digit_chars(ds.skip(1))) + seq![
            digit_char(ds[0] as nat),
        ] =~= seq![digit_char(d as nat)] + rev_digit_chars(ds));
    }
}

pub proof fn lemma_rev_digit_chars_len(ds: Seq<u8>)
    ensures
        rev_digit_chars(ds).len() == ds.len(),
    decreases ds.len(),
{
    if ds.len() > 0 {
        lemma_rev_digit_chars_len(ds.skip(1));
    }
}

pub proof fn lemma_rev_digit_chars_index(ds: Seq<u8>)
    ensures
        rev_digit_chars(ds).len() == ds.len(),
        forall|i: int|
            0 <= i < ds.len() ==> rev_digit_chars(ds)[i] == digit_char(
                ds[ds.len() - 1 - i] as nat,
            ),
    decreases ds.len(),
{
    lemma_rev_digit_chars_len(ds);
    if ds.len() > 0 {
        lemma_rev_digit_chars_index(ds.skip(1));
        lemma_rev_digit_chars_len(ds.skip(1));
        assert forall|i: int| 0 <= i < ds.len() implies rev_digit_chars(ds)[i] == digit_char(
            ds[ds.len() - 1 - i] as nat,
        ) by {
            if i < ds.len() - 1 {
                assert(rev_digit_chars(ds)[i] == rev_digit_chars(ds.skip(1))[i]);
                assert(ds.skip(1)[ds.skip(1).len() - 1 - i] == ds[ds.len() - 1 - i]);
            }
        }
    }
}

pub proof fn lemma_num_of_append(a: Seq<char>, b: Seq<char>)
    ensures
        num_of(a + b) == num_of(a) * pow10(b.len()) + num_of(b),
    decreases b.len(),
{
    if b.len() == 0 {
        assert(a + b =~= a);
        assert(num_of(b) == 0);
        assert(pow10(b.len()) == 1);
        assert(num_of(a) * 1 == num_of(a));
    } else {
        lemma_num_of_append(a, b.drop_last());
        assert((a + b).drop_last() =~= a + b.drop_last());
        assert((a + b).last() == b.last());
        assert(pow10(b.len()) == 10 * pow10((b.len() - 1) as nat));
        let x = num_of(a);
        let y = num_of(b.drop_last());
        let d = digit_val(b.last());
        let p = pow10((b.len() - 1) as nat);
        assert((a + b).len() != 0);
        assert(num_of(a + b) == 10 * num_of((a + b).drop_last()) + digit_val((a + b).last()));
        assert(num_of(a + b) == 10 * (x * p + y) + d);
        assert(10 * (x * p + y) + d == x * (10 * p) + (10 * y + d)) by (nonlinear_arith);
        assert(num_of(b) == 10 * y + d);
        assert(num_of(a + b) == x * pow10(b.len()) + num_of(b));
    }
}

pub proof fn lemma_num_of_dec_digits(n: nat)
    ensures
        num_of(dec_digits(n)) == n,
    decreases n,
{
    if n < 10 {
        let s = seq![digit_char(n)];
        assert(s.drop_last() =~= Seq::<char>::empty());
        assert(s.last() == digit_char(n));
        assert(num_of(s) == 10 * num_of(s.drop_last()) + digit_val(s.last()));
        assert(num_of(s.drop_last()) == 0);
        assert(digit_val(digit_char(n)) == n);
    } else {
        lemma_num_of_dec_digits(n / 10);
        let a = dec_digits(n / 10);
        let d = digit_char(n % 10);
        assert((a + seq![d]).drop_last() =~= a);
        assert((a + seq![d]).last() == d);
        assert(digit_val(digit_char(n % 10)) == n % 10);
    }
}

pub proof fn lemma_num_of_zeros(k: nat)
    ensures
        num_of(Seq::new(k, |i: int| '0')) == 0,
    decreases k,
{
    if k > 0 {
        lemma_num_of_zeros((k - 1) as nat);
        assert(Seq::new(k, |i: int| '0').drop_last() =~= Seq::new((k - 1) as nat, |i: int| '0'));
    }
}

pub proof fn lemma_num_of_padded(n: nat, w: nat)
    ensures
        num_of(padded_digits(n, w)) == n,
{
    lemma_num_of_dec_digits(n);
    if dec_digits(n).len() < w {
        let k = (w - dec_digits(n).len()) as nat;
        lemma_num_of_zeros(k);
        lemma_num_of_append(Seq::new(k, |i: int| '0'), dec_digits(n));
    }
}

pub proof fn lemma_dec_digits_are_digits(n: nat)
    ensures
        all_digits(dec_digits(n)),
        dec_digits(n).len() >= 1,
    decreases n,
{
    if n < 10 {
        assert(is_digit_char(digit_char(n)));
    } else {
        lemma_dec_digits_are_digits(n / 10);
        let a = dec_digits(n / 10);
        let d = digit_char(n % 10);
        assert(is_digit_char(d));
        assert forall|i: int| 0 <= i < (a + seq![d]).len() implies is_digit_char(
            #[trigger] (a + seq![d])[i],
        ) by {
            if i < a.len() {
                assert((a + seq![d])[i] == a[i]);
            }
        }
    }
}

pub proof fn lemma_padded_digits_are_digits(n: nat, w: nat)
    ensures
        all_digits(padded_digits(n, w)),
        padded_digits(n, w).len() >= w,
        padded_digits(n, w).len() >= 1,
{
    lemma_dec_digits_are_digits(n);
    if dec_digits(n).len() < w {
        let k = (w - dec_digits(n).len()) as nat;
        let z = Seq::new(k, |i: int| '0');
        assert forall|i: int| 0 <= i < (z + dec_digits(n)).len() implies is_digit_char(
            #[trigger] (z + dec_digits(n))[i],
        ) by {
            if i < k {
                assert((z + dec_digits(n))[i] == '0');
            } else {
                assert((z + dec_digits(n))[i] == dec_digits(n)[i - k]);
            }
        }
    }
}

/// The one-character string for a decimal digit value.
pub fn digit_str(d: u8) -> (r: &'static str)
    requires
        d < 10,
    ensures
        r@ =~= seq![digit_char(d as nat)],
{
    proof {
        reveal_strlit("0");
        reveal_strlit("1");
        reveal_strlit("2");
        reveal_strlit("3");
        reveal_strlit("4");
        reveal_strlit("5");
        reveal_strlit("6");
        reveal_strlit("7");
        reveal_strlit("8");
        reveal_strlit("9");
    }
    if d == 0 {
        "0"
    } else if d == 1 {
        "1"
    } else if d == 2 {
        "2"
    } else if d == 3 {
        "3"
    } else if d == 4 {
        "4"
    } else if d == 5 {
        "5"
    } else if d == 6 {
        "6"
    } else if d == 7 {
        "7"
    } else if d == 8 {
        "8"
    } else {
        "9"
    }
}

/// The decimal digit values of `n`, least significant first.
pub fn digits_rev_vec(n: u128) -> (digs: Vec<u8>)
    ensures
        rev_digit_chars(digs@) == dec_digits(n as nat),
        forall|i: int| 0 <= i < digs@.len() ==> #[trigger] digs@[i] < 10,
        digs@.len() >= 1,
        digs@.len() == dec_digits(n as nat).len(),
{
    let mut digs: Vec<u8> = Vec::new();
    let mut m: u128 = n;
    while m >= 10
        invariant
            dec_digits(n as nat) =~= dec_digits(m as nat) + rev_digit_chars(digs@),
            forall|i: int| 0 <= i < digs@.len() ==> #[trigger] digs@[i] < 10,
        decreases m,
    {
        let d: u8 = (m % 10) as u8;
        proof {
            lemma_rev_digit_chars_push(digs@, d);
            assert(dec_digits(m as nat) == dec_digits(m as nat / 10) + seq![
                digit_char(m as nat % 10),
            ]);
            assert(dec_digits(m as nat / 10) + (seq![digit_char(d as nat)] + rev_digit_chars(
                digs@,
            )) =~= dec_digits(m as nat) + rev_digit_chars(digs@));
        }
        digs.push(d);
        m = m / 10;
    }
    proof {
        lemma_rev_digit_chars_push(digs@, m as u8);
        assert(dec_digits(m as nat) == seq![digit_char(m as nat)]);
        assert(seq![digit_char(m as nat)] + rev_digit_chars(digs@) =~= dec_digits(m as nat)
            + rev_digit_chars(digs@));
    }
    digs.push(m as u8);
    proof {
        lemma_rev_digit_chars_len(digs@);
    }
    digs
}

/// Appends the characters of `digs[lo..hi]`, most significant digit first.
pub fn append_rev_digits(s: &mut String, digs: &Vec<u8>, lo: usize, hi: usize)
    requires
        lo <= hi <= digs@.len(),
        forall|i: int| 0 <= i < digs@.len() ==> #[trigger] digs@[i] < 10,
    ensures
        final(s)@ == old(s)@ + rev_digit_chars(digs@.subrange(lo as int, hi as int)),
{
    let ghost s0 = s@;
    let mut i: usize = hi;
    while i > lo
        invariant
            lo <= i <= hi <= digs@.len(),
            forall|k: int| 0 <= k < digs@.len() ==> #[trigger] digs@[k] < 10,
            s@ == s0 + rev_digit_chars(digs@.subrange(i as int, hi as int)),
        decreases i,
    {
        i = i - 1;
        s.append(digit_str(digs[i]));
        proof {
            assert(digs@.subrange(i as int, hi as int).skip(1) =~= digs@.subrange(
                i as int + 1,
                hi as int,
            ));
            assert(rev_digit_chars(digs@.subrange(i as int, hi as int)) == rev_digit_chars(
                digs@.subrange(i as int + 1, hi as int),
            ) + seq![digit_char(digs@[i as int] as nat)]);
            assert(s0 + rev_digit_chars(digs@.subrange(i as int + 1, hi as int)) + seq![
                digit_char(digs@[i as int] as nat),
            ] =~= s0 + rev_digit_chars(digs@.subrange(i as int, hi as int)));
        }
    }
    proof {
        assert(digs@.subrange(lo as int, hi as int) == digs@.subrange(i as int, hi as int));
    }
}

/// Extends a reversed digit vector with zeros until it holds `width` digits.
pub fn pad_digits(digs: &mut Vec<u8>, n: u128, width: usize)
    requires
        rev_digit_chars(old(digs)@) == dec_digits(n as nat),
        old(digs)@.len() == dec_digits(n as nat).len(),
        forall|i: int| 0 <= i < old(digs)@.len() ==> #[trigger] old(digs)@[i] < 10,
    ensures
        rev_digit_chars(final(digs)@) == padded_digits(n as nat, width as nat),
        final(digs)@.len() == padded_digits(n as nat, width as nat).len(),
        final(digs)@.len() >= width,
        final(digs)@.len() >= old(digs)@.len(),
        forall|i: int| 0 <= i < final(digs)@.len() ==> #[trigger] final(digs)@[i] < 10,
{
    let ghost dlen = dec_digits(n as nat).len();
    while digs.len() < width
        invariant
            digs@.len() >= dlen,
            digs@.len() == dlen || digs@.len() <= width,
            rev_digit_chars(digs@) =~= Seq::new((digs@.len() - dlen) as nat, |i: int| '0')
                + dec_digits(n as nat),
            digs@.len() == rev_digit_chars(digs@).len(),
            forall|i: int| 0 <= i < digs@.len() ==> #[trigger] digs@[i] < 10,
        decreases width - digs@.len(),
    {
        proof {
            lemma_rev_digit_chars_push(digs@, 0u8);
            assert(seq![digit_char(0)] + (Seq::new((digs@.len() - dlen) as nat, |i: int| '0')
                + dec_digits(n as nat)) =~= Seq::new((digs@.len() + 1 - dlen) as nat, |i: int| '0')
                + dec_digits(n as nat));
            lemma_rev_digit_chars_len(digs@.push(0u8));
        }
        digs.push(0u8);
    }
    proof {
        if digs@.len() == dlen {
            assert(Seq::new(0, |i: int| '0') + dec_digits(n as nat) =~= dec_digits(n as nat));
        }
        if dlen >= width {
            assert(digs@.len() == dlen);
            assert(padded_digits(n as nat, width as nat) == dec_digits(n as nat));
        } else {
            assert(digs@.len() == width);
            assert(padded_digits(n as nat, width as nat) == Seq::new(
                (width - dlen) as nat,
                |i: int| '0',
            ) + dec_digits(n as nat));
        }
    }
}

/// Appends the decimal digit string of `n`, zero-padded to at least `width` characters.
pub fn append_padded(s: &mut String, n: u128, width: usize)
    ensures
        final(s)@ == old(s)@ + padded_digits(n as nat, width as nat),
{
    let mut digs = digits_rev_vec(n);
    pad_digits(&mut digs, n, width);
    let len = digs.len();
    proof {
        assert(digs@.subrange(0, len as int) =~= digs@);
    }
    append_rev_digits(s, &digs, 0, len);
}

/// Appends the plain decimal digit string of `n`.
pub fn append_digits(s: &mut String, n: u128)
    ensures
        final(s)@ == old(s)@ + dec_digits(n as nat),
{
    let digs = digits_rev_vec(n);
    let len = digs.len();
    proof {
        assert(digs@.subrange(0, len as int) =~= digs@);
    }
    append_rev_digits(s, &digs, 0, len);
}

} // verus!
