//! The record format: fixed-width decimal lines, their numeric value, and the
//! packed comparison encoding.

use vstd::prelude::*;

verus! {

use crate::LINE_WIDTH_INCL_NEWLINE;

/// ASCII digit.
pub open spec fn is_digit(b: u8) -> bool {
    48 <= b <= 57
}

/// The first `n` bytes of `s` are ASCII digits.
pub open spec fn digits_up_to(s: Seq<u8>, n: int) -> bool {
    forall|i: int| 0 <= i < n ==> is_digit(#[trigger] s[i])
}

/// A well-formed record: 13 digits and a terminating newline.
pub open spec fn valid_line(s: Seq<u8>) -> bool {
    &&& s.len() == LINE_WIDTH_INCL_NEWLINE
    &&& digits_up_to(s, 13)
    &&& s[13] == 10
}

/// Value of the first `n` digits of `s`, read in base 10.
pub open spec fn line_val_prefix(s: Seq<u8>, n: int) -> nat
    decreases n,
{
    if n <= 0 {
        0
    } else {
        line_val_prefix(s, n - 1) * 10 + (s[n - 1] - 48) as nat
    }
}

/// Decimal value of a record.
pub open spec fn line_val(s: Seq<u8>) -> nat {
    line_val_prefix(s, 13)
}

/// Value of the first `n` digits of `s`, with each digit packed into one
/// hexadecimal nibble.
pub open spec fn pack_val_prefix(s: Seq<u8>, n: int) -> nat
    decreases n,
{
    if n <= 0 {
        0
    } else {
        pack_val_prefix(s, n - 1) * 16 + (s[n - 1] - 48) as nat
    }
}

/// The packed comparison encoding of a record: the 13 digit nibbles in the
/// high bytes, a file tag in the least significant byte.
pub open spec fn packed_of(s: Seq<u8>, tag: u8) -> nat {
    pack_val_prefix(s, 13) * 256 + tag as nat
}

/// A digit string of length `n` is worth less than `10^n`; packed, less than
/// `16^n`.
pub proof fn lemma_val_prefix_bounds(s: Seq<u8>, n: int)
    requires
        0 <= n <= 13,
        digits_up_to(s, n),
    ensures
        line_val_prefix(s, n) < pow10(n as nat),
        pack_val_prefix(s, n) < pow16(n as nat),
    decreases n,
{
    if n > 0 {
        lemma_val_prefix_bounds(s, n - 1);
    }
}

/// `10^n` for small `n`.
pub open spec fn pow10(n: nat) -> nat
    decreases n,
{
    if n == 0 {
        1
    } else {
        10 * pow10((n - 1) as nat)
    }
}

/// `16^n` for small `n`.
pub open spec fn pow16(n: nat) -> nat
    decreases n,
{
    if n == 0 {
        1
    } else {
        16 * pow16((n - 1) as nat)
    }
}

/// The packed encoding orders digit strings exactly as their decimal value
/// does: both orders agree with the left-to-right lexicographic order.
pub proof fn lemma_val_prefix_order(s1: Seq<u8>, s2: Seq<u8>, n: int)
    requires
        0 <= n <= 13,
        digits_up_to(s1, n),
        digits_up_to(s2, n),
    ensures
        (line_val_prefix(s1, n) < line_val_prefix(s2, n)) == (pack_val_prefix(s1, n)
            < pack_val_prefix(s2, n)),
        (line_val_prefix(s1, n) == line_val_prefix(s2, n)) == (pack_val_prefix(s1, n)
            == pack_val_prefix(s2, n)),
    decreases n,
{
    if n > 0 {
        lemma_val_prefix_order(s1, s2, n - 1);
    }
}

/// Two records with the same decimal value are the same bytes: the fixed
/// width leaves no freedom in leading zeros.
pub proof fn lemma_val_prefix_injective(s1: Seq<u8>, s2: Seq<u8>, n: int)
    requires
        0 <= n <= 13,
        digits_up_to(s1, n),
        digits_up_to(s2, n),
        line_val_prefix(s1, n) == line_val_prefix(s2, n),
    ensures
        forall|i: int| 0 <= i < n ==> s1[i] == s2[i],
    decreases n,
{
    if n > 0 {
        assert(line_val_prefix(s1, n) % 10 == (s1[n - 1] - 48) as nat % 10);
        assert(line_val_prefix(s2, n) % 10 == (s2[n - 1] - 48) as nat % 10);
        assert(s1[n - 1] == s2[n - 1]);
        assert(line_val_prefix(s1, n - 1) == line_val_prefix(s2, n - 1));
        lemma_val_prefix_injective(s1, s2, n - 1);
    }
}

/// Two valid records with the same value are byte-identical.
pub proof fn lemma_line_val_injective(s1: Seq<u8>, s2: Seq<u8>)
    requires
        valid_line(s1),
        valid_line(s2),
        line_val(s1) == line_val(s2),
    ensures
        s1 == s2,
{
    lemma_val_prefix_injective(s1, s2, 13);
    assert(s1 =~= s2);
}

/// Packed encodings order records by value first and file tag second, and
/// every packed encoding stays below `u64::MAX`.
pub proof fn lemma_packed_order(s1: Seq<u8>, s2: Seq<u8>, t1: u8, t2: u8)
    requires
        valid_line(s1),
        valid_line(s2),
    ensures
        packed_of(s1, t1) < u64::MAX,
        (packed_of(s1, t1) < packed_of(s2, t2)) == (line_val(s1) < line_val(s2) || (line_val(s1)
            == line_val(s2) && t1 < t2)),
{
    lemma_val_prefix_bounds(s1, 13);
    lemma_val_prefix_bounds(s2, 13);
    lemma_val_prefix_order(s1, s2, 13);
    assert(pow16(13) == 0x10000000000000) by {
        reveal_with_fuel(pow16, 14);
    }
}

/// Splits a byte sequence into its records.
pub open spec fn to_lines(s: Seq<u8>) -> Seq<Seq<u8>> {
    Seq::new(
        s.len() / LINE_WIDTH_INCL_NEWLINE as nat,
        |k: int| s.subrange(14 * k, 14 * k + 14),
    )
}

/// A final record may arrive without its newline; normalization restores it.
pub open spec fn norm(c: Seq<u8>) -> Seq<u8> {
    if c.len() % LINE_WIDTH_INCL_NEWLINE as nat == 13 {
        c.push(10)
    } else {
        c
    }
}

/// Record values in nondecreasing order.
pub open spec fn lines_sorted(ls: Seq<Seq<u8>>) -> bool {
    forall|i: int, j: int|
        0 <= i <= j < ls.len() ==> line_val(#[trigger] ls[i]) <= line_val(#[trigger] ls[j])
}

/// Every entry is a well-formed record.
pub open spec fn lines_valid(ls: Seq<Seq<u8>>) -> bool {
    forall|i: int| 0 <= i < ls.len() ==> valid_line(#[trigger] ls[i])
}

/// The low `n` decimal digits of `v` as ASCII, most significant first.
pub open spec fn render_digits(v: nat, n: nat) -> Seq<u8>
    decreases n,
{
    if n == 0 {
        Seq::empty()
    } else {
        render_digits(v / 10, (n - 1) as nat).push((v % 10 + 48) as u8)
    }
}

/// The record for a value: its 13 digits and a newline.
pub open spec fn render_line(v: nat) -> Seq<u8> {
    render_digits(v, 13).push(10)
}

/// `10^n` is positive.
pub proof fn lemma_pow10_pos(n: nat)
    ensures
        pow10(n) > 0,
    decreases n,
{
    if n > 0 {
        lemma_pow10_pos((n - 1) as nat);
    }
}

/// Digit values only depend on the digits below `n`.
pub proof fn lemma_val_prefix_congruence(s1: Seq<u8>, s2: Seq<u8>, n: int)
    requires
        forall|i: int| 0 <= i < n ==> s1[i] == s2[i],
    ensures
        line_val_prefix(s1, n) == line_val_prefix(s2, n),
    decreases n,
{
    if n > 0 {
        lemma_val_prefix_congruence(s1, s2, n - 1);
    }
}

/// Rendering produces digits whose value reads back as `v mod 10^n`.
pub proof fn lemma_render_digits(v: nat, n: nat)
    requires
        n <= 13,
    ensures
        render_digits(v, n).len() == n,
        digits_up_to(render_digits(v, n), n as int),
        line_val_prefix(render_digits(v, n), n as int) == v % pow10(n),
    decreases n,
{
    if n == 0 {
        assert(v % 1 == 0) by {
            vstd::arithmetic::div_mod::lemma_mod_self_0(1);
            vstd::arithmetic::div_mod::lemma_small_mod(0, 1);
            assert(v % 1 == 0) by (nonlinear_arith);
        }
    } else {
        let q = v / 10;
        let m = (n - 1) as nat;
        lemma_render_digits(q, m);
        let s = render_digits(v, n);
        let sq = render_digits(q, m);
        assert(forall|i: int| 0 <= i < m ==> s[i] == sq[i]);
        lemma_val_prefix_congruence(s, sq, m as int);
        let p = pow10(m);
        lemma_pow10_pos(m);
        assert(line_val_prefix(s, n as int) == (q % p) * 10 + v % 10);
        assert((q % p) * 10 + v % 10 == v % (10 * p)) by {
            let qq = q as int / p as int;
            assert(0 <= q % p < p);
            assert((q % p) * 10 + v % 10 < 10 * p) by (nonlinear_arith)
                requires
                    0 <= q % p < p,
                    v % 10 < 10,
            ;
            vstd::arithmetic::div_mod::lemma_fundamental_div_mod(q as int, p as int);
            vstd::arithmetic::div_mod::lemma_fundamental_div_mod(v as int, 10);
            assert(v as int == (10 * p) * qq + ((q as int % p as int) * 10 + v as int % 10))
                by (nonlinear_arith)
                requires
                    p > 0,
                    q as int == p as int * qq + q as int % p as int,
                    v as int == 10 * (v as int / 10) + v as int % 10,
                    q == v / 10,
            ;
            vstd::arithmetic::div_mod::lemma_fundamental_div_mod_converse(
                v as int,
                10 * p as int,
                qq,
                (q as int % p as int) * 10 + v as int % 10,
            );
        }
    }
}

/// The rendered record of a value below `10^13` is well formed and reads
/// back as that value.
pub proof fn lemma_render_line(v: nat)
    requires
        v < pow10(13),
    ensures
        valid_line(render_line(v)),
        line_val(render_line(v)) == v,
{
    lemma_render_digits(v, 13);
    let s = render_line(v);
    let sd = render_digits(v, 13);
    assert(forall|i: int| 0 <= i < 13 ==> s[i] == sd[i]);
    lemma_val_prefix_congruence(s, sd, 13);
    vstd::arithmetic::div_mod::lemma_small_mod(v, pow10(13));
}

/// The format contract on one input file: after normalization it is a whole
/// number of well-formed records, sorted by value.
pub open spec fn input_ok(c: Seq<u8>) -> bool {
    &&& norm(c).len() % LINE_WIDTH_INCL_NEWLINE as nat == 0
    &&& lines_valid(to_lines(norm(c)))
    &&& lines_sorted(to_lines(norm(c)))
}

/// Splitting a whole-record slice of `s` into records gives the records of
/// `s` from that position on.
pub proof fn lemma_to_lines_slice(s: Seq<u8>, a: int, n: int)
    requires
        0 <= a,
        0 <= n,
        a % 14 == 0,
        a + 14 * n <= s.len(),
    ensures
        to_lines(s.subrange(a, a + 14 * n)).len() == n,
        forall|k: int|
            0 <= k < n ==> #[trigger] to_lines(s.subrange(a, a + 14 * n))[k] == to_lines(s)[a / 14
                + k],
{
    let sub = s.subrange(a, a + 14 * n);
    assert(sub.len() == 14 * n);
    assert forall|k: int| 0 <= k < n implies to_lines(sub)[k] == to_lines(s)[a / 14 + k] by {
        assert(to_lines(sub)[k] == sub.subrange(14 * k, 14 * k + 14));
        assert(to_lines(s)[a / 14 + k] == s.subrange(
            14 * (a / 14 + k),
            14 * (a / 14 + k) + 14,
        ));
        assert(14 * (a / 14 + k) == a + 14 * k);
        assert(sub.subrange(14 * k, 14 * k + 14) =~= s.subrange(a + 14 * k, a + 14 * k + 14));
    }
}

/// `10^n` grows with its exponent.
pub proof fn lemma_pow10_increases(a: nat, b: nat)
    requires
        a <= b,
    ensures
        pow10(a) <= pow10(b),
    decreases b,
{
    lemma_pow10_pos(a);
    if a < b {
        lemma_pow10_increases(a, (b - 1) as nat);
    }
}

/// Neighbourwise order of record values extends to any two positions.
pub proof fn lemma_sorted_from_adjacent(ls: Seq<Seq<u8>>)
    requires
        forall|k: int| 0 <= k < ls.len() - 1 ==> line_val(#[trigger] ls[k]) <= line_val(ls[k + 1]),
    ensures
        lines_sorted(ls),
{
    assert forall|i: int, j: int| 0 <= i <= j < ls.len() implies line_val(#[trigger] ls[i])
        <= line_val(#[trigger] ls[j]) by {
        lemma_val_le_span(ls, i, j);
    }
}

proof fn lemma_val_le_span(ls: Seq<Seq<u8>>, i: int, j: int)
    requires
        0 <= i <= j < ls.len(),
        forall|k: int| 0 <= k < ls.len() - 1 ==> line_val(#[trigger] ls[k]) <= line_val(ls[k + 1]),
    ensures
        line_val(ls[i]) <= line_val(ls[j]),
    decreases j - i,
{
    if i < j {
        lemma_val_le_span(ls, i, j - 1);
    }
}

/// Decides the format contract: `true` exactly when the bytes are a whole
/// number of well-formed records, sorted by value, where only the final
/// record may omit its newline.
#[verifier::loop_isolation(false)]
#[verifier::rlimit(60)]
pub fn check_input(content: &[u8]) -> (b: bool)
    ensures
        b == input_ok(content@),
{
    let len = content.len();
    let rem = len % LINE_WIDTH_INCL_NEWLINE;
    let ghost n = norm(content@);
    if rem != 0 && rem != 13 {
        proof {
            assert(n == content@);
            assert(n.len() % 14 != 0);
        }
        return false;
    }
    let nlines = if rem == 13 {
        len / LINE_WIDTH_INCL_NEWLINE + 1
    } else {
        len / LINE_WIDTH_INCL_NEWLINE
    };
    proof {
        if rem == 13 {
            assert(n == content@.push(10));
        } else {
            assert(n == content@);
        }
        assert(n.len() == 14 * nlines);
        assert(to_lines(n).len() == nlines);
    }
    let mut prev: u64 = 0;
    let mut k: usize = 0;
    while k < nlines
        invariant
            k <= nlines,
            forall|kk: int| 0 <= kk < k ==> valid_line(#[trigger] to_lines(n)[kk]),
            forall|kk: int|
                0 <= kk < k - 1 ==> line_val(#[trigger] to_lines(n)[kk]) <= line_val(
                    to_lines(n)[kk + 1],
                ),
            k > 0 ==> prev as nat == line_val(to_lines(n)[k - 1]),
        decreases nlines - k,
    {
        let base = k * LINE_WIDTH_INCL_NEWLINE;
        let ghost w = to_lines(n)[k as int];
        proof {
            assert(w == n.subrange(14 * k as int, 14 * k as int + 14));
            assert(pow10(12) == 1000000000000) by {
                reveal_with_fuel(pow10, 13);
            }
        }
        let mut val: u64 = 0;
        let mut j: usize = 0;
        while j < 13
            invariant
                j <= 13,
                base == 14 * k,
                k < nlines,
                forall|jj: int| 0 <= jj < j ==> is_digit(#[trigger] w[jj]),
                val as nat == line_val_prefix(w, j as int),
            decreases 13 - j,
        {
            let b = content[base + j];
            proof {
                assert(w[j as int] == n[14 * k + j]);
                assert(n[14 * k + j] == content@[base + j]);
            }
            if b < 48 || b > 57 {
                proof {
                    assert(!valid_line(to_lines(n)[k as int]));
                    assert(!lines_valid(to_lines(n)));
                }
                return false;
            }
            proof {
                lemma_val_prefix_bounds(w, j as int);
                lemma_pow10_increases(j as nat, 12);
            }
            val = val * 10 + (b - 48) as u64;
            j = j + 1;
        }
        if base + 13 < len {
            let nb = content[base + 13];
            if nb != 10 {
                proof {
                    assert(w[13] == content@[base + 13]);
                    assert(!valid_line(to_lines(n)[k as int]));
                    assert(!lines_valid(to_lines(n)));
                }
                return false;
            }
        } else {
            proof {
                assert(base + 13 == len && rem == 13);
                assert(w[13] == n[len as int]);
                assert(w[13] == 10);
            }
        }
        proof {
            assert(valid_line(to_lines(n)[k as int]));
            assert(val as nat == line_val(w));
        }
        if k > 0 && val < prev {
            proof {
                assert(line_val(to_lines(n)[k - 1]) > line_val(to_lines(n)[k as int]));
                assert(!lines_sorted(to_lines(n)));
            }
            return false;
        }
        prev = val;
        k = k + 1;
    }
    proof {
        assert(lines_valid(to_lines(n)));
        lemma_sorted_from_adjacent(to_lines(n));
    }
    true
}

/// A whole-record byte sequence is determined by its records.
pub proof fn lemma_to_lines_injective(s1: Seq<u8>, s2: Seq<u8>)
    requires
        s1.len() % 14 == 0,
        s2.len() % 14 == 0,
        to_lines(s1) == to_lines(s2),
    ensures
        s1 == s2,
{
    assert(to_lines(s1).len() == s1.len() / 14 as nat);
    assert(to_lines(s2).len() == s2.len() / 14 as nat);
    assert(s1.len() == 14 * (s1.len() / 14 as nat));
    assert(s2.len() == 14 * (s2.len() / 14 as nat));
    assert(s1.len() == s2.len());
    assert forall|i: int| 0 <= i < s1.len() implies #[trigger] s1[i] == s2[i] by {
        let k = i / 14;
        let j = i % 14;
        assert(i == 14 * k + j);
        assert(to_lines(s1)[k] == s1.subrange(14 * k, 14 * k + 14));
        assert(to_lines(s2)[k] == s2.subrange(14 * k, 14 * k + 14));
        assert(s1.subrange(14 * k, 14 * k + 14)[j] == s1[i]);
        assert(s2.subrange(14 * k, 14 * k + 14)[j] == s2[i]);
    }
    assert(s1 =~= s2);
}

/// Two sorted runs of well-formed records with the same record multiset are
/// byte-identical: the fixed width makes equal values equal bytes, so
/// sortedness leaves no freedom at all.
pub proof fn lemma_sorted_lines_unique(ls1: Seq<Seq<u8>>, ls2: Seq<Seq<u8>>)
    requires
        lines_valid(ls1),
        lines_valid(ls2),
        lines_sorted(ls1),
        lines_sorted(ls2),
        ls1.to_multiset() == ls2.to_multiset(),
    ensures
        ls1 == ls2,
    decreases ls1.len(),
{
    broadcast use vstd::seq_lib::group_to_multiset_ensures;
    broadcast use vstd::multiset::group_multiset_axioms;

    assert(ls1.to_multiset().len() == ls1.len());
    assert(ls2.to_multiset().len() == ls2.len());
    assert(ls1.len() == ls2.len());
    if ls1.len() == 0 {
        assert(ls1 =~= ls2);
    } else {
        let h1 = ls1[0];
        let h2 = ls2[0];
        assert(ls1.contains(h1));
        assert(ls2.to_multiset().count(h1) > 0);
        assert(ls2.contains(h1));
        let k1 = choose|k: int| 0 <= k < ls2.len() && ls2[k] == h1;
        assert(line_val(h2) <= line_val(ls2[k1]));
        assert(ls2.contains(h2));
        assert(ls1.to_multiset().count(h2) > 0);
        assert(ls1.contains(h2));
        let k2 = choose|k: int| 0 <= k < ls1.len() && ls1[k] == h2;
        assert(line_val(h1) <= line_val(ls1[k2]));
        lemma_line_val_injective(h1, h2);
        let t1 = ls1.drop_first();
        let t2 = ls2.drop_first();
        assert(t1.to_multiset() == t2.to_multiset()) by {
            assert(ls1.remove(0) =~= t1);
            assert(ls2.remove(0) =~= t2);
            assert(ls1.remove(0).to_multiset() == ls1.to_multiset().remove(h1));
            assert(ls2.remove(0).to_multiset() == ls2.to_multiset().remove(h2));
        }
        assert(forall|i: int| 0 <= i < t1.len() ==> #[trigger] t1[i] == ls1[i + 1]);
        assert(forall|i: int| 0 <= i < t2.len() ==> #[trigger] t2[i] == ls2[i + 1]);
        assert(lines_valid(t1) && lines_sorted(t1)) by {
            assert(forall|i: int, j: int|
                0 <= i <= j < t1.len() ==> line_val(#[trigger] t1[i]) <= line_val(
                    #[trigger] t1[j],
                ));
        }
        assert(lines_valid(t2) && lines_sorted(t2)) by {
            assert(forall|i: int, j: int|
                0 <= i <= j < t2.len() ==> line_val(#[trigger] t2[i]) <= line_val(
                    #[trigger] t2[j],
                ));
        }
        lemma_sorted_lines_unique(t1, t2);
        assert forall|i: int| 0 <= i < ls1.len() implies #[trigger] ls1[i] == ls2[i] by {
            if i > 0 {
                assert(ls1[i] == t1[i - 1]);
                assert(ls2[i] == t2[i - 1]);
            }
        }
        assert(ls1 =~= ls2);
    }
}

/// Prepending one whole record shifts the record decomposition by one.
pub proof fn lemma_to_lines_cons(line: Seq<u8>, rest: Seq<u8>)
    requires
        line.len() == 14,
    ensures
        to_lines(line + rest) == seq![line] + to_lines(rest),
{
    let whole = line + rest;
    assert(to_lines(whole).len() == (seq![line] + to_lines(rest)).len());
    assert forall|k: int| 0 <= k < to_lines(whole).len() implies #[trigger] to_lines(whole)[k]
        == (seq![line] + to_lines(rest))[k] by {
        if k == 0 {
            assert(whole.subrange(0, 14) =~= line);
        } else {
            assert(whole.subrange(14 * k, 14 * k + 14) =~= rest.subrange(
                14 * (k - 1),
                14 * (k - 1) + 14,
            ));
        }
    }
    assert(to_lines(line + rest) =~= seq![line] + to_lines(rest));
}

} // verus!
