//! Counting the datasets that can be observed over a set of alternatives.

use crate::alt_set::AltSet;
use crate::rpc_common::{ChoiceRow, ChoiceRowView};
use vstd::prelude::*;

verus! {

/// Whether every menu forces a choice.
pub const FC: bool = false;

/// The product of the numbers from 1 to `n`.
pub open spec fn factorial(n: nat) -> nat
    decreases n,
{
    if n == 0 {
        1
    } else {
        n * factorial((n - 1) as nat)
    }
}

/// `b` multiplied `e` times with itself.
pub open spec fn power(b: nat, e: nat) -> nat
    decreases e,
{
    if e == 0 {
        1
    } else {
        b * power(b, (e - 1) as nat)
    }
}

/// The number of the menus of `k` among `n` alternatives.
pub open spec fn combinations(n: nat, k: nat) -> nat {
    factorial(n) / (factorial(k) * factorial((n - k) as nat))
}

/// The number of possible observations on one menu of `i` alternatives: one
/// of them is chosen, or none where no choice is forced.
pub open spec fn outcomes(i: nat) -> nat {
    if FC {
        i
    } else {
        i + 1
    }
}

/// The number of ways to choose from each menu of `i` among `n`
/// alternatives; the number of these menus counts as cut to 32 bits.
pub open spec fn menu_factor(n: nat, i: nat) -> nat {
    power(outcomes(i), (combinations(n, i) as u32) as nat)
}

/// The number of ways to choose from each menu of up to `m` among `n`
/// alternatives.
pub open spec fn count_upto(n: nat, m: nat) -> nat
    decreases m,
{
    if m == 0 {
        1
    } else {
        count_upto(n, (m - 1) as nat) * menu_factor(n, m)
    }
}

/// The number of datasets over `n` alternatives.
pub open spec fn dataset_count(n: nat) -> nat {
    count_upto(n, n)
}

/// A factorial is at least 1, and grows with its argument.
pub proof fn lemma_factorial_grows(k: nat, n: nat)
    requires
        k <= n,
    ensures
        1 <= factorial(k) <= factorial(n),
        n <= factorial(n),
    decreases n,
{
    if n == 0 {
    } else if k == n {
        lemma_factorial_grows((n - 1) as nat, (n - 1) as nat);
        assert(n * factorial((n - 1) as nat) >= n) by (nonlinear_arith)
            requires
                factorial((n - 1) as nat) >= 1,
                n >= 1,
        ;
    } else {
        lemma_factorial_grows(k, (n - 1) as nat);
        lemma_factorial_grows((n - 1) as nat, (n - 1) as nat);
        assert(n * factorial((n - 1) as nat) >= factorial((n - 1) as nat)) by (nonlinear_arith)
            requires
                n >= 1,
        ;
        assert(n * factorial((n - 1) as nat) >= n) by (nonlinear_arith)
            requires
                factorial((n - 1) as nat) >= 1,
                n >= 1,
        ;
    }
}

/// The factorials of two numbers multiply to no more than the factorial of
/// their sum.
pub proof fn lemma_factorial_split(k: nat, m: nat)
    ensures
        1 <= factorial(k) * factorial(m) <= factorial(k + m),
    decreases m,
{
    lemma_factorial_grows(k, k);
    if m == 0 {
        assert(factorial(k) * 1 == factorial(k));
    } else {
        lemma_factorial_split(k, (m - 1) as nat);
        let a = factorial(k);
        let b = factorial((m - 1) as nat);
        let c = factorial((k + m - 1) as nat);
        assert(factorial(m) == m * b);
        assert(factorial(k + m) == (k + m) * c);
        assert(a * (m * b) <= (k + m) * c && 1 <= a * (m * b)) by (nonlinear_arith)
            requires
                1 <= a * b <= c,
                m >= 1,
        ;
    }
}

/// A power of a positive number is at least 1, and grows with the exponent.
pub proof fn lemma_power_grows(b: nat, d: nat, e: nat)
    requires
        b >= 1,
        d <= e,
    ensures
        1 <= power(b, d) <= power(b, e),
    decreases e,
{
    if e == 0 {
    } else if d == e {
        lemma_power_grows(b, (e - 1) as nat, (e - 1) as nat);
        assert(b * power(b, (e - 1) as nat) >= 1) by (nonlinear_arith)
            requires
                b >= 1,
                power(b, (e - 1) as nat) >= 1,
        ;
    } else {
        lemma_power_grows(b, d, (e - 1) as nat);
        assert(b * power(b, (e - 1) as nat) >= power(b, (e - 1) as nat)) by (nonlinear_arith)
            requires
                b >= 1,
        ;
    }
}

/// The count grows with the size of the menus, and each factor of it is at
/// least 1 and no more than the count.
pub proof fn lemma_count_grows(n: nat, l: nat, m: nat)
    requires
        l <= m,
    ensures
        1 <= count_upto(n, l) <= count_upto(n, m),
        1 <= l ==> 1 <= menu_factor(n, l) <= count_upto(n, m),
    decreases m,
{
    if m == 0 {
    } else {
        lemma_power_grows(outcomes(m), 0, (combinations(n, m) as u32) as nat);
        let f = menu_factor(n, m);
        let c = count_upto(n, (m - 1) as nat);
        if l == m {
            lemma_count_grows(n, (m - 1) as nat, (m - 1) as nat);
        } else {
            lemma_count_grows(n, l, (m - 1) as nat);
            lemma_count_grows(n, (m - 1) as nat, (m - 1) as nat);
        }
        assert(c * f >= c && c * f >= f) by (nonlinear_arith)
            requires
                c >= 1,
                f >= 1,
        ;
    }
}

/// The product of the numbers from 1 to `n`, which must fit.
pub fn fac(n: u64) -> (r: u64)
    requires
        factorial(n as nat) <= u64::MAX,
    ensures
        r == factorial(n as nat),
{
    let mut r: u64 = 1;
    let mut i: u64 = 0;
    while i < n
        invariant
            i <= n,
            r == factorial(i as nat),
            factorial(n as nat) <= u64::MAX,
        decreases n - i,
    {
        i += 1;
        proof {
            lemma_factorial_grows(i as nat, n as nat);
            assert(factorial(i as nat) == i * factorial((i - 1) as nat));
            assert(r * i == i * r) by (nonlinear_arith);
        }
        r = r * i;
    }
    r
}

/// The number of the menus of `k` among `n` alternatives, where `k` is at
/// most `n` and the factorial of `n` fits.
pub fn comb(n: u64, k: u64) -> (r: u64)
    requires
        k <= n,
        factorial(n as nat) <= u64::MAX,
    ensures
        r == combinations(n as nat, k as nat),
{
    proof {
        lemma_factorial_grows(k as nat, n as nat);
        lemma_factorial_grows((n - k) as nat, n as nat);
        lemma_factorial_split(k as nat, (n - k) as nat);
    }
    fac(n) / (fac(k) * fac(n - k))
}

/// `base` multiplied `exp` times with itself, which must fit.
fn pow(base: u64, exp: u32) -> (r: u64)
    requires
        base >= 1,
        power(base as nat, exp as nat) <= u64::MAX,
    ensures
        r == power(base as nat, exp as nat),
{
    let mut r: u64 = 1;
    let mut i: u32 = 0;
    while i < exp
        invariant
            i <= exp,
            base >= 1,
            r == power(base as nat, i as nat),
            power(base as nat, exp as nat) <= u64::MAX,
        decreases exp - i,
    {
        i += 1;
        proof {
            lemma_power_grows(base as nat, i as nat, exp as nat);
        }
        r = base * r;
    }
    r
}

/// The number of datasets over `n` alternatives, where it and the factorial
/// of `n` fit.
pub fn datasets(n: u64) -> (r: u64)
    requires
        factorial(n as nat) <= u64::MAX,
        dataset_count(n as nat) <= u64::MAX,
    ensures
        r == dataset_count(n as nat),
{
    let mut r: u64 = 1;
    let mut i: u64 = 0;
    while i < n
        invariant
            i <= n,
            r == count_upto(n as nat, i as nat),
            factorial(n as nat) <= u64::MAX,
            count_upto(n as nat, n as nat) <= u64::MAX,
        decreases n - i,
    {
        i += 1;
        proof {
            lemma_count_grows(n as nat, i as nat, n as nat);
        }
        let exp = #[verifier::truncate] (comb(n, i) as u32);
        let base = if FC {
            i
        } else {
            proof {
                lemma_factorial_grows(n as nat, n as nat);
                lemma_factorial_big(n as nat);
            }
            i + 1
        };
        r = r * pow(base, exp);
    }
    r
}

/// From 3 on a factorial exceeds its argument.
pub proof fn lemma_factorial_big(n: nat)
    ensures
        n >= 3 ==> factorial(n) > n,
    decreases n,
{
    if n > 3 {
        lemma_factorial_big((n - 1) as nat);
        assert(n * factorial((n - 1) as nat) > n) by (nonlinear_arith)
            requires
                factorial((n - 1) as nat) > n - 1,
                n > 3,
        ;
    } else if n == 3 {
        reveal_with_fuel(factorial, 4);
    }
}

/// The observation on `menu` that the number `k` stands for: the choice
/// of the member at place `k`, or a deferral where `k` is the number of
/// members.
pub open spec fn observation(menu: AltSet, k: nat) -> ChoiceRowView {
    ChoiceRowView {
        menu: menu@,
        default: None,
        choice: if k == menu.listing().len() {
            Set::empty()
        } else {
            set![menu.listing()[k as int]]
        },
    }
}

/// The dataset with the number `code` over the menus: the observations are
/// the digits of `code`, the lowest first, where the digit of a menu runs
/// over its possible observations.
pub open spec fn dataset_of(code: nat, menus: Seq<AltSet>) -> Seq<ChoiceRowView>
    decreases menus.len(),
{
    if menus.len() == 0 {
        Seq::empty()
    } else {
        let radix = outcomes(menus[0].listing().len());
        seq![observation(menus[0], code % radix)] + dataset_of(code / radix, menus.drop_first())
    }
}

/// The observations as mathematics sees them.
pub open spec fn rows_view(rows: Seq<ChoiceRow>) -> Seq<ChoiceRowView> {
    rows.map_values(|r: ChoiceRow| r@)
}

/// The dataset with the number `code` over the menus.
pub fn dataset(code: u64, menus: &Vec<AltSet>) -> (rows: Vec<ChoiceRow>)
    ensures
        rows_view(rows@) == dataset_of(code as nat, menus@),
{
    let mut rows: Vec<ChoiceRow> = Vec::new();
    let mut j = code;
    let mut i: usize = 0;
    assert(menus@.skip(0) =~= menus@);
    assert(rows_view(rows@) + dataset_of(j as nat, menus@.skip(0)) =~= dataset_of(
        code as nat,
        menus@,
    ));
    while i < menus.len()
        invariant
            i <= menus.len(),
            rows_view(rows@) + dataset_of(j as nat, menus@.skip(i as int)) == dataset_of(
                code as nat,
                menus@,
            ),
        decreases menus.len() - i,
    {
        let ghost before = rows_view(rows@);
        let menu = menus[i].clone();
        let members = menus[i].to_vec();
        let n = menus[i].size() as u64;
        let n_nfc = if FC {
            n
        } else {
            n + 1
        };
        let k = j % n_nfc;
        let ghost digit = j as nat;
        j = j / n_nfc;
        let choice = if k == n {
            AltSet::empty()
        } else {
            AltSet::singleton(members[k as usize])
        };
        let row = ChoiceRow { menu, default: None, choice };
        proof {
            let rest = menus@.skip(i as int);
            assert(rest[0] == menus@[i as int]);
            assert(rest.drop_first() =~= menus@.skip(i + 1));
            assert(row@ == observation(menus@[i as int], k as nat));
            assert(dataset_of(digit, rest) == seq![row@] + dataset_of(
                j as nat,
                menus@.skip(i + 1),
            ));
        }
        rows.push(row);
        assert(rows_view(rows@) =~= before.push(row@));
        assert(rows_view(rows@) + dataset_of(j as nat, menus@.skip(i + 1)) =~= before + (
        seq![row@] + dataset_of(j as nat, menus@.skip(i + 1))));
        i += 1;
    }
    assert(menus@.skip(i as int) =~= Seq::<AltSet>::empty());
    assert(rows_view(rows@) + Seq::<ChoiceRowView>::empty() =~= rows_view(rows@));
    rows
}

} // verus!
