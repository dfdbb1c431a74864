use vstd::prelude::*;

use crate::text::all_digits;
use crate::text::append_rev_digits;
use crate::text::digit_char;
use crate::text::digit_val;
use crate::text::digits_rev_vec;
use crate::text::is_digit_char;
use crate::text::lemma_num_of_append;
use crate::text::lemma_num_of_padded;
use crate::text::lemma_padded_digits_are_digits;
use crate::text::lemma_pow10_pos;
use crate::text::lemma_rev_digit_chars_index;
use crate::text::num_of;
use crate::text::pad_digits;
use crate::text::padded_digits;
use crate::text::pow10;
use crate::text::rev_digit_chars;

verus! {

/// An exact signed decimal number: `mantissa / 10^scale`, negated when
/// `negative` is set. Mirrors a 96-bit-mantissa decimal with scale up to 28.
#[derive(Clone, Copy, PartialEq, Eq, Structural, Debug)]
pub struct Amount {
    pub negative: bool,
    pub mantissa: u128,
    pub scale: u32,
}

impl Amount {
    /// The mantissa fits in 96 bits and the scale is at most 28.
    pub open spec fn wf(self) -> bool {
        self.mantissa < 0x1000000000000000000000000 && self.scale <= 28
    }

    /// The signed scaled integer this amount denotes: the amount's exact
    /// rational value is `value() / 10^scale`.
    pub open spec fn value(self) -> int {
        if self.negative {
            -(self.mantissa as int)
        } else {
            self.mantissa as int
        }
    }

    pub open spec fn spec_neg(self) -> Amount {
        Amount { negative: !self.negative, mantissa: self.mantissa, scale: self.scale }
    }

    /// Builds an amount, refusing a mantissa or scale out of range.
    pub fn new(negative: bool, mantissa: u128, scale: u32) -> (r: Option<Amount>)
        ensures
            r is Some <==> mantissa < 0x1000000000000000000000000 && scale <= 28,
            r matches Some(a) ==> a == (Amount { negative, mantissa, scale }) && a.wf(),
    {
        if mantissa < 0x1000000000000000000000000u128 && scale <= 28 {
            Some(Amount { negative, mantissa, scale })
        } else {
            None
        }
    }

    /// The exact additive inverse: same mantissa and scale, opposite sign.
    pub fn neg(&self) -> (r: Amount)
        ensures
            r == self.spec_neg(),
            r.value() == -self.value(),
            r.scale == self.scale,
            self.wf() ==> r.wf(),
    {
        Amount { negative: !self.negative, mantissa: self.mantissa, scale: self.scale }
    }

    /// True exactly when the amount is strictly below zero.
    pub fn is_strictly_negative(&self) -> (r: bool)
        ensures
            r == (self.value() < 0),
    {
        self.negative && self.mantissa > 0
    }
}

/// The canonical digit text of an unsigned decimal `m / 10^scale`: the digits
/// padded to at least `scale + 1` places, with a point before the last
/// `scale` of them when the scale is positive.
pub open spec fn amount_body_chars(m: nat, scale: nat) -> Seq<char> {
    let ds = padded_digits(m, scale + 1);
    if scale == 0 {
        ds
    } else {
        ds.take(ds.len() - scale) + seq!['.'] + ds.skip(ds.len() - scale)
    }
}

/// The canonical text of an amount: a minus sign exactly when the sign flag
/// is set (a negative zero keeps its sign), then the unsigned digit text.
pub open spec fn amount_chars(a: Amount) -> Seq<char> {
    if a.negative {
        seq!['-'] + amount_body_chars(a.mantissa as nat, a.scale as nat)
    } else {
        amount_body_chars(a.mantissa as nat, a.scale as nat)
    }
}

/// Appends the canonical text of `a`.
pub fn append_amount(s: &mut String, a: &Amount)
    requires
        a.wf(),
    ensures
        final(s)@ == old(s)@ + amount_chars(*a),
{
    let ghost s0 = s@;
    if a.negative {
        proof {
            reveal_strlit("-");
            assert("-"@ =~= seq!['-']);
        }
        s.append("-");
    }
    let ghost sgn: Seq<char> = if a.negative {
        seq!['-']
    } else {
        Seq::empty()
    };
    proof {
        reveal_strlit("-");
        assert("-"@ =~= seq!['-']);
        assert(s@ =~= s0 + sgn);
    }
    let ghost m = a.mantissa as nat;
    let mut digs = digits_rev_vec(a.mantissa);
    let sc = a.scale as usize;
    pad_digits(&mut digs, a.mantissa, sc + 1);
    let len = digs.len();
    let ghost ds = padded_digits(m, a.scale as nat + 1);
    proof {
        assert(ds == rev_digit_chars(digs@));
        lemma_rev_digit_chars_index(digs@);
        let sub = digs@.subrange(sc as int, len as int);
        lemma_rev_digit_chars_index(sub);
        assert forall|i: int| 0 <= i < len - sc implies rev_digit_chars(sub)[i] == ds.take(
            len - sc,
        )[i] by {
            assert(sub[sub.len() - 1 - i] == digs@[len - 1 - i]);
            assert(rev_digit_chars(sub)[i] == digit_char(digs@[len - 1 - i] as nat));
            assert(ds[i] == digit_char(digs@[len - 1 - i] as nat));
        }
        assert(rev_digit_chars(sub) =~= ds.take(len - sc));
    }
    append_rev_digits(s, &digs, sc, len);
    if sc > 0 {
        proof {
            reveal_strlit(".");
            assert("."@ =~= seq!['.']);
        }
        s.append(".");
        proof {
            lemma_rev_digit_chars_index(digs@);
            let sub = digs@.subrange(0, sc as int);
            lemma_rev_digit_chars_index(sub);
            assert forall|i: int| 0 <= i < sc implies rev_digit_chars(sub)[i] == ds.skip(
                len - sc,
            )[i] by {
                assert(sub[sub.len() - 1 - i] == digs@[sc - 1 - i]);
                assert(rev_digit_chars(sub)[i] == digit_char(digs@[sc - 1 - i] as nat));
                assert(ds.skip(len - sc)[i] == ds[len - sc + i]);
                assert(ds[len - sc + i] == digit_char(digs@[sc - 1 - i] as nat));
            }
            assert(rev_digit_chars(sub) =~= ds.skip(len - sc));
        }
        append_rev_digits(s, &digs, 0, sc);
        proof {
            assert(s@ =~= s0 + sgn + (ds.take(len - sc) + seq!['.'] + ds.skip(len - sc)));
            assert(s@ =~= s0 + amount_chars(*a));
        }
    } else {
        proof {
            assert(ds.take(len as int) =~= ds);
            assert(s@ =~= s0 + sgn + ds);
            assert(s@ =~= s0 + amount_chars(*a));
        }
    }
}

/// Whether `k` splits a sign-free amount body into a nonempty integer digit
/// part, a point, and a nonempty fraction digit part.
pub open spec fn body_split_at(s: Seq<char>, k: int) -> bool {
    &&& 1 <= k
    &&& k + 1 < s.len()
    &&& s[k] == '.'
    &&& all_digits(s.take(k))
    &&& all_digits(s.skip(k + 1))
}

/// Parses a sign-free amount body to its mantissa digits' value and its
/// scale; the grammar is digits, optionally split once by a point with
/// digits on both sides.
pub open spec fn parse_body_spec(s: Seq<char>) -> Option<(nat, nat)> {
    if s.len() > 0 && all_digits(s) {
        Some((num_of(s), 0 as nat))
    } else if exists|k: int| body_split_at(s, k) {
        let k = choose|k: int| body_split_at(s, k);
        Some((num_of(s.take(k) + s.skip(k + 1)), (s.len() - k - 1) as nat))
    } else {
        None
    }
}

/// Parses amount text: an optional leading minus sign, then the body; the
/// mantissa must fit in 96 bits and the scale must stay at most 28.
pub open spec fn parse_amount_spec(s: Seq<char>) -> Option<Amount> {
    let neg = s.len() > 0 && s[0] == '-';
    let body = if neg {
        s.skip(1)
    } else {
        s
    };
    match parse_body_spec(body) {
        None => None,
        Some((m, sc)) => if m < 0x1000000000000000000000000 && sc <= 28 {
            Some(Amount { negative: neg, mantissa: m as u128, scale: sc as u32 })
        } else {
            None
        },
    }
}

proof fn lemma_num_prefix(a: Seq<char>, b: Seq<char>)
    ensures
        num_of(a + b) >= num_of(a),
{
    lemma_num_of_append(a, b);
    lemma_pow10_pos(b.len());
    let x = num_of(a);
    let p = pow10(b.len());
    let y = num_of(b);
    assert(x * p + y >= x) by (nonlinear_arith)
        requires
            p >= 1,
    ;
}

proof fn lemma_body_none_at(body: Seq<char>, bad: int)
    requires
        0 <= bad < body.len(),
        !is_digit_char(body[bad]),
        body[bad] != '.',
    ensures
        parse_body_spec(body) is None,
{
    assert(!all_digits(body));
    assert forall|k: int| !body_split_at(body, k) by {
        if body_split_at(body, k) {
            if bad < k {
                assert(body.take(k)[bad] == body[bad]);
                assert(is_digit_char(body.take(k)[bad]));
            } else if bad > k {
                assert(body.skip(k + 1)[bad - k - 1] == body[bad]);
                assert(is_digit_char(body.skip(k + 1)[bad - k - 1]));
            }
        }
    }
}

proof fn lemma_body_none_two_dots(body: Seq<char>, p: int, q: int)
    requires
        0 <= p < q < body.len(),
        body[p] == '.',
        body[q] == '.',
        all_digits(body.take(p)),
    ensures
        parse_body_spec(body) is None,
{
    assert(!is_digit_char(body[p]));
    assert(!all_digits(body));
    assert forall|k: int| !body_split_at(body, k) by {
        if body_split_at(body, k) {
            if k < p {
                assert(body.take(p)[k] == body[k]);
                assert(is_digit_char(body[k]));
            } else if k > p {
                assert(body.take(k)[p] == body[p]);
                assert(is_digit_char(body.take(k)[p]));
            } else {
                assert(body.skip(k + 1)[q - k - 1] == body[q]);
                assert(is_digit_char(body.skip(k + 1)[q - k - 1]));
            }
        }
    }
}

proof fn lemma_body_none_leading_dot(body: Seq<char>)
    requires
        body.len() > 0,
        body[0] == '.',
    ensures
        parse_body_spec(body) is None,
{
    assert(!is_digit_char(body[0]));
    assert(!all_digits(body));
    assert forall|k: int| !body_split_at(body, k) by {
        if body_split_at(body, k) {
            assert(body.take(k)[0] == body[0]);
            assert(is_digit_char(body.take(k)[0]));
        }
    }
}

proof fn lemma_body_none_trailing_dot(body: Seq<char>, p: int)
    requires
        0 <= p,
        p == body.len() - 1,
        body[p] == '.',
        all_digits(body.take(p)),
    ensures
        parse_body_spec(body) is None,
{
    assert(!is_digit_char(body[p]));
    assert(!all_digits(body));
    assert forall|k: int| !body_split_at(body, k) by {
        if body_split_at(body, k) {
            if k < p {
                assert(body.take(p)[k] == body[k]);
                assert(is_digit_char(body[k]));
            }
        }
    }
}

/// Whatever the body parse yields, its mantissa is at least the value of
/// the mantissa digits read so far.
proof fn lemma_parse_body_big(body: Seq<char>, dot: Option<int>, j: int, big: nat)
    requires
        0 <= j < body.len(),
        match dot {
            None => all_digits(body.take(j + 1)) && num_of(body.take(j + 1)) >= big,
            Some(p) => 1 <= p <= j && body[p] == '.' && all_digits(body.take(p)) && all_digits(
                body.subrange(p + 1, j + 1),
            ) && num_of(body.take(p) + body.subrange(p + 1, j + 1)) >= big,
        },
    ensures
        parse_body_spec(body) matches Some(r) ==> r.0 >= big,
{
    if parse_body_spec(body) is Some {
        if body.len() > 0 && all_digits(body) {
            match dot {
                None => {
                    assert(body.take(j + 1) + body.skip(j + 1) =~= body);
                    lemma_num_prefix(body.take(j + 1), body.skip(j + 1));
                },
                Some(p) => {
                    assert(is_digit_char(body[p]));
                },
            }
        } else {
            let k = choose|k: int| body_split_at(body, k);
            assert(body_split_at(body, k));
            match dot {
                None => {
                    assert(k > j) by {
                        if k <= j {
                            assert(body.take(j + 1)[k] == body[k]);
                            assert(is_digit_char(body.take(j + 1)[k]));
                        }
                    }
                    assert(body.take(j + 1) + body.subrange(j + 1, k) =~= body.take(k));
                    lemma_num_prefix(body.take(j + 1), body.subrange(j + 1, k));
                    lemma_num_prefix(body.take(k), body.skip(k + 1));
                    assert(body.take(k) + body.skip(k + 1) =~= body.take(k) + body.skip(k + 1));
                },
                Some(p) => {
                    assert(k == p) by {
                        if k < p {
                            assert(body.take(p)[k] == body[k]);
                            assert(is_digit_char(body.take(p)[k]));
                        } else if k > p {
                            if k <= j {
                                assert(body.subrange(p + 1, j + 1)[k - p - 1] == body[k]);
                                assert(is_digit_char(body.subrange(p + 1, j + 1)[k - p - 1]));
                            } else {
                                assert(body.take(k)[p] == body[p]);
                                assert(is_digit_char(body.take(k)[p]));
                            }
                        }
                    }
                    let a = body.take(p) + body.subrange(p + 1, j + 1);
                    let b = body.subrange(j + 1, body.len() as int);
                    assert(body.take(p) + body.skip(p + 1) =~= a + b);
                    lemma_num_prefix(a, b);
                },
            }
        }
    }
}

/// The numeric value of a decimal digit character, or nothing for another
/// character.
fn char_digit(c: char) -> (r: Option<u8>)
    ensures
        r is Some <==> is_digit_char(c),
        r matches Some(d) ==> d < 10 && d as nat == digit_val(c),
{
    if c == '0' {
        Some(0)
    } else if c == '1' {
        Some(1)
    } else if c == '2' {
        Some(2)
    } else if c == '3' {
        Some(3)
    } else if c == '4' {
        Some(4)
    } else if c == '5' {
        Some(5)
    } else if c == '6' {
        Some(6)
    } else if c == '7' {
        Some(7)
    } else if c == '8' {
        Some(8)
    } else if c == '9' {
        Some(9)
    } else {
        None
    }
}

/// Parses the canonical amount text back to an amount; yields nothing on a
/// malformed body, an overlong mantissa, or a scale above 28.
pub fn parse_amount(s: &str) -> (r: Option<Amount>)
    ensures
        r == parse_amount_spec(s@),
        r matches Some(a) ==> a.wf(),
{
    let n = s.unicode_len();
    let neg = n > 0 && s.get_char(0) == '-';
    let off: usize = if neg {
        1
    } else {
        0
    };
    let ghost body = if neg {
        s@.skip(1)
    } else {
        s@
    };
    proof {
        if !neg {
            assert(body =~= s@.skip(0));
        }
    }
    if off >= n {
        proof {
            assert(body.len() == 0);
            assert forall|k: int| !body_split_at(body, k) by {}
        }
        return None;
    }
    let mut acc: u128 = 0;
    let mut dot: Option<usize> = None;
    let mut j: usize = 0;
    while j < n - off
        invariant
            n == s@.len(),
            off <= n,
            off == 1 <==> neg,
            neg ==> s@.len() > 0 && s@[0] == '-',
            !neg ==> (s@.len() == 0 || s@[0] != '-'),
            body == (if neg {
                s@.skip(1)
            } else {
                s@
            }),
            body.len() == n - off,
            body.len() > 0,
            j <= body.len(),
            match dot {
                None => all_digits(body.take(j as int)) && acc == num_of(body.take(j as int)),
                Some(p) => 1 <= p < j && body[p as int] == '.' && all_digits(
                    body.take(p as int),
                ) && all_digits(body.subrange(p as int + 1, j as int)) && acc == num_of(
                    body.take(p as int) + body.subrange(p as int + 1, j as int),
                ),
            },
            acc < 0x1000000000000000000000000,
        decreases n - off - j,
    {
        let c = s.get_char(off + j);
        proof {
            assert(body[j as int] == s@[off + j]);
        }
        if c == '.' {
            match dot {
                Some(p) => {
                    proof {
                        lemma_body_none_two_dots(body, p as int, j as int);
                    }
                    return None;
                },
                None => {
                    if j == 0 {
                        proof {
                            lemma_body_none_leading_dot(body);
                        }
                        return None;
                    }
                    dot = Some(j);
                },
            }
        } else {
            let d = match char_digit(c) {
                Some(d) => d,
                None => {
                    proof {
                        lemma_body_none_at(body, j as int);
                    }
                    return None;
                },
            };
            let newacc = acc * 10 + d as u128;
            let ghost olddigits: Seq<char> = match dot {
                None => body.take(j as int),
                Some(p) => body.take(p as int) + body.subrange(p as int + 1, j as int),
            };
            let ghost newdigits: Seq<char> = match dot {
                None => body.take(j as int + 1),
                Some(p) => body.take(p as int) + body.subrange(p as int + 1, j as int + 1),
            };
            proof {
                assert(newdigits.drop_last() =~= olddigits);
                assert(newdigits.last() == body[j as int]);
                assert(num_of(newdigits) == 10 * num_of(olddigits) + digit_val(body[j as int]));
                assert(newacc == num_of(newdigits));
                assert forall|i: int| 0 <= i < newdigits.len() implies is_digit_char(
                    #[trigger] newdigits[i],
                ) by {
                    if i < newdigits.len() - 1 {
                        assert(newdigits[i] == olddigits[i]);
                    }
                }
            }
            if newacc >= 0x1000000000000000000000000u128 {
                proof {
                    let gdot: Option<int> = match dot {
                        None => None,
                        Some(p) => Some(p as int),
                    };
                    lemma_parse_body_big(body, gdot, j as int, 0x1000000000000000000000000nat);
                }
                return None;
            }
            acc = newacc;
        }
        j = j + 1;
    }
    match dot {
        None => {
            proof {
                assert(body.take(j as int) =~= body);
            }
            Some(Amount { negative: neg, mantissa: acc, scale: 0 })
        },
        Some(p) => {
            if p + 1 == n - off {
                proof {
                    lemma_body_none_trailing_dot(body, p as int);
                }
                None
            } else {
                let scale_len = n - off - p - 1;
                proof {
                    assert(body.subrange(p as int + 1, j as int) =~= body.skip(p as int + 1));
                    assert(body_split_at(body, p as int));
                    let kc = choose|k: int| body_split_at(body, k);
                    assert(kc == p as int) by {
                        if kc < p as int {
                            assert(body.take(p as int)[kc] == body[kc]);
                            assert(is_digit_char(body.take(p as int)[kc]));
                            assert(body_split_at(body, kc));
                        } else if kc > p as int {
                            assert(body_split_at(body, kc));
                            assert(body.take(kc)[p as int] == body[p as int]);
                            assert(is_digit_char(body.take(kc)[p as int]));
                        }
                    }
                    assert(!all_digits(body)) by {
                        assert(!is_digit_char(body[p as int]));
                    }
                }
                if scale_len > 28 {
                    None
                } else {
                    Some(Amount { negative: neg, mantissa: acc, scale: scale_len as u32 })
                }
            }
        },
    }
}

/// Law: negation is exact — negating twice restores the amount, and a zero
/// amount keeps the value zero under negation whatever its sign flag.
pub proof fn lemma_neg_exact(a: Amount)
    ensures
        a.spec_neg().spec_neg() == a,
        a.spec_neg().value() == -a.value(),
        a.spec_neg().scale == a.scale,
        a.mantissa == 0 ==> a.spec_neg().value() == 0 && a.value() == 0,
{
}

/// Law: rendering an amount and parsing the text back yields the identical
/// amount — the same sign, mantissa and scale, with no precision loss.
pub proof fn lemma_amount_round_trip(a: Amount)
    requires
        a.wf(),
    ensures
        parse_amount_spec(amount_chars(a)) == Some(a),
{
    let m = a.mantissa as nat;
    let sc = a.scale as nat;
    let ds = padded_digits(m, sc + 1);
    lemma_padded_digits_are_digits(m, sc + 1);
    lemma_num_of_padded(m, sc + 1);
    let body0 = amount_body_chars(m, sc);
    let s = amount_chars(a);
    if sc == 0 {
        assert(body0 == ds);
    } else {
        let k = ds.len() - sc;
        assert(1 <= k);
        assert(body0 == ds.take(k) + seq!['.'] + ds.skip(k));
        assert(body0.len() == ds.len() + 1);
        assert(body0[k] == '.');
        assert(body0.take(k) =~= ds.take(k));
        assert(body0.skip(k + 1) =~= ds.skip(k));
        assert forall|i: int| 0 <= i < body0.take(k).len() implies is_digit_char(
            #[trigger] body0.take(k)[i],
        ) by {
            assert(body0.take(k)[i] == ds[i]);
        }
        assert forall|i: int| 0 <= i < body0.skip(k + 1).len() implies is_digit_char(
            #[trigger] body0.skip(k + 1)[i],
        ) by {
            assert(body0.skip(k + 1)[i] == ds[k + i]);
        }
        assert(body_split_at(body0, k));
        assert(!is_digit_char(body0[k]));
        assert(!all_digits(body0));
        let kc = choose|k2: int| body_split_at(body0, k2);
        assert(kc == k) by {
            assert(body_split_at(body0, kc));
            if kc < k {
                assert(body0[kc] == ds[kc]);
                assert(is_digit_char(body0[kc]));
            } else if kc > k {
                assert(body0.take(kc)[k] == body0[k]);
                assert(is_digit_char(body0.take(kc)[k]));
            }
        }
        assert(body0.take(k) + body0.skip(k + 1) =~= ds);
        assert(parse_body_spec(body0) == Some((num_of(ds), (body0.len() - k - 1) as nat)));
        assert((body0.len() - k - 1) as nat == sc);
    }
    assert(parse_body_spec(body0) == Some((m, sc)));
    if a.negative {
        assert(s == seq!['-'] + body0);
        assert(s[0] == '-');
        assert(s.skip(1) =~= body0);
    } else {
        assert(s == body0);
        assert(body0[0] == ds[0]) by {
            if sc != 0 {
                assert(body0.take(ds.len() - sc)[0] == body0[0]);
            }
        }
        assert(is_digit_char(ds[0]));
        assert(s[0] != '-');
    }
}

/// Renders the canonical text of `a` as a fresh string.
pub fn amount_to_text(a: &Amount) -> (r: String)
    requires
        a.wf(),
    ensures
        r@ == amount_chars(*a),
{
    let mut s = String::new();
    append_amount(&mut s, a);
    proof {
        assert(s@ =~= amount_chars(*a));
    }
    s
}

} // verus!
