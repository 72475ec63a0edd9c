//! For each position of a sequence, the product of all the other entries.

use vstd::prelude::*;

verus! {

/// The product of all entries of `s`; the empty product is 1.
pub open spec fn product(s: Seq<i32>) -> int
    decreases s.len(),
{
    if s.len() == 0 {
        1
    } else {
        product(s.drop_last()) * s.last()
    }
}

/// The product of all entries of `s` except the one at position `i`. For an
/// `i` that is no position of `s` nothing is left out.
pub open spec fn product_except(s: Seq<i32>, i: int) -> int {
    if 0 <= i < s.len() {
        product(s.remove(i))
    } else {
        product(s)
    }
}

/// `v` is a value that an `i32` holds.
pub open spec fn fits_i32(v: int) -> bool {
    i32::MIN <= v <= i32::MAX
}

/// `r` holds, at each position of `s`, the product of the other entries.
pub open spec fn is_products_except_self(s: Seq<i32>, r: Seq<i32>) -> bool {
    &&& r.len() == s.len()
    &&& forall|i: int| 0 <= i < s.len() ==> #[trigger] r[i] == product_except(s, i)
}

/// `r` holds 0 at each position where `s` holds 0, and at every other
/// position the product of all entries divided by the entry there, which is
/// the product of the other entries.
pub open spec fn is_quotients_by_self(s: Seq<i32>, r: Seq<i32>) -> bool {
    &&& r.len() == s.len()
    &&& forall|i: int|
        0 <= i < s.len() ==> #[trigger] r[i] == if s[i] == 0 {
            0
        } else {
            product_except(s, i)
        }
}

/// One entry of `s` is 0 and no other is.
pub open spec fn has_lone_zero(s: Seq<i32>) -> bool {
    exists|i: int|
        0 <= i < s.len() && #[trigger] s[i] == 0 && forall|j: int|
            0 <= j < s.len() && j != i ==> #[trigger] s[j] != 0
}

/// A prefix that grows by one position grows by that factor.
pub proof fn lemma_product_take_next(s: Seq<i32>, k: int)
    requires
        0 <= k < s.len(),
    ensures
        product(s.take(k + 1)) == product(s.take(k)) * s[k],
{
    assert(s.take(k + 1).drop_last() =~= s.take(k));
    assert(s.take(k + 1).last() == s[k]);
}

/// The product of two sequences laid end to end is the product of their
/// products.
pub proof fn lemma_product_concat(a: Seq<i32>, b: Seq<i32>)
    ensures
        product(a + b) == product(a) * product(b),
    decreases b.len(),
{
    if b.len() == 0 {
        assert(a + b =~= a);
    } else {
        lemma_product_concat(a, b.drop_last());
        assert((a + b).drop_last() =~= a + b.drop_last());
        assert((a + b).last() == b.last());
        let pa = product(a);
        let pb = product(b.drop_last());
        let x = b.last() as int;
        assert((pa * pb) * x == pa * (pb * x)) by (nonlinear_arith);
    }
}

/// The product does not depend on the direction in which the factors are
/// taken.
pub proof fn lemma_product_reverse(s: Seq<i32>)
    ensures
        product(s.reverse()) == product(s),
    decreases s.len(),
{
    if s.len() > 0 {
        let head = seq![s.last()];
        let rest = s.drop_last();
        lemma_product_reverse(rest);
        assert(s.reverse() =~= head + rest.reverse());
        lemma_product_concat(head, rest.reverse());
        assert(head.drop_last() =~= Seq::<i32>::empty());
        assert(product(head) == s.last()) by {
            assert(product(head.drop_last()) == 1);
        }
        let p = product(rest);
        let x = s.last() as int;
        assert(x * p == p * x) by (nonlinear_arith);
    }
}

/// The product of the others is the product of those before times the
/// product of those after.
pub proof fn lemma_product_except_split(s: Seq<i32>, i: int)
    requires
        0 <= i < s.len(),
    ensures
        product_except(s, i) == product(s.take(i)) * product(s.skip(i + 1)),
{
    assert(s.remove(i) =~= s.take(i) + s.skip(i + 1));
    lemma_product_concat(s.take(i), s.skip(i + 1));
}

/// The product of all entries is the entry at `i` times the product of the
/// others.
pub proof fn lemma_product_factor(s: Seq<i32>, i: int)
    requires
        0 <= i < s.len(),
    ensures
        product(s) == product_except(s, i) * s[i],
{
    let before = s.take(i);
    let after = s.skip(i + 1);
    let here = seq![s[i]];
    lemma_product_except_split(s, i);
    assert(s =~= (before + here) + after);
    lemma_product_concat(before + here, after);
    assert((before + here).drop_last() =~= before);
    assert(product(before + here) == product(before) * s[i]);
    let pb = product(before);
    let pa = product(after);
    let x = s[i] as int;
    assert((pb * x) * pa == (pb * pa) * x) by (nonlinear_arith);
}

/// A product is 0 exactly when one of its factors is 0.
pub proof fn lemma_product_zero(s: Seq<i32>)
    ensures
        product(s) == 0 <==> exists|k: int| 0 <= k < s.len() && #[trigger] s[k] == 0,
    decreases s.len(),
{
    if s.len() > 0 {
        let rest = s.drop_last();
        lemma_product_zero(rest);
        let p = product(rest);
        let x = s.last() as int;
        assert(p * x == 0 <==> (p == 0 || x == 0)) by (nonlinear_arith);
        if product(s) == 0 {
            if p == 0 {
                let k = choose|k: int| 0 <= k < rest.len() && #[trigger] rest[k] == 0;
                assert(s[k] == 0);
            } else {
                assert(s[s.len() - 1] == 0);
            }
        }
        if exists|k: int| 0 <= k < s.len() && #[trigger] s[k] == 0 {
            let k = choose|k: int| 0 <= k < s.len() && #[trigger] s[k] == 0;
            if k < rest.len() {
                assert(rest[k] == 0);
            }
        }
    }
}

/// The products of the others are determined by the sequence: two results
/// that each hold them are equal. So the scan with running products and the
/// exhaustive search agree on every sequence, and a second call on the same
/// sequence returns what the first returned.
pub proof fn lemma_products_except_self_unique(s: Seq<i32>, a: Seq<i32>, b: Seq<i32>)
    requires
        is_products_except_self(s, a),
        is_products_except_self(s, b),
    ensures
        a == b,
{
    assert(a =~= b);
}

/// The quotients by the entries are determined by the sequence: two results
/// that each hold them are equal.
pub proof fn lemma_quotients_by_self_unique(s: Seq<i32>, a: Seq<i32>, b: Seq<i32>)
    requires
        is_quotients_by_self(s, a),
        is_quotients_by_self(s, b),
    ensures
        a == b,
{
    assert(a =~= b);
}

/// On a sequence without a lone zero, dividing the product of all entries
/// by each entry gives the products of the others: there the division
/// agrees with the scan with running products and with the exhaustive
/// search.
pub proof fn lemma_quotients_are_products(s: Seq<i32>, r: Seq<i32>)
    requires
        !has_lone_zero(s),
        is_quotients_by_self(s, r),
    ensures
        is_products_except_self(s, r),
{
    assert forall|i: int| 0 <= i < s.len() implies #[trigger] r[i] == product_except(s, i) by {
        if s[i] == 0 {
            let j = choose|j: int| 0 <= j < s.len() && j != i && #[trigger] s[j] == 0;
            let others = s.remove(i);
            lemma_product_zero(others);
            if j < i {
                assert(others[j] == 0);
            } else {
                assert(others[j - 1] == 0);
            }
        }
    }
}

/// On a sequence with a lone zero the division disagrees with the other
/// two functions: at the position of that zero it gives 0, and the product
/// of the others, none of them 0, is not 0.
pub proof fn lemma_quotients_differ_at_lone_zero(s: Seq<i32>, r: Seq<i32>, i: int)
    requires
        is_quotients_by_self(s, r),
        0 <= i < s.len(),
        s[i] == 0,
        forall|j: int| 0 <= j < s.len() && j != i ==> #[trigger] s[j] != 0,
    ensures
        has_lone_zero(s),
        r[i] == 0,
        product_except(s, i) != 0,
        !is_products_except_self(s, r),
{
    let others = s.remove(i);
    lemma_product_zero(others);
    if product(others) == 0 {
        let k = choose|k: int| 0 <= k < others.len() && #[trigger] others[k] == 0;
        if k < i {
            assert(s[k] == 0);
        } else {
            assert(s[k + 1] == 0);
        }
    }
    assert(r[i] == 0);
}

/// Returns `v` back to front.
fn reversed(v: &Vec<i32>) -> (out: Vec<i32>)
    ensures
        out@ == v@.reverse(),
{
    let n = v.len();
    let mut out: Vec<i32> = Vec::with_capacity(n);
    let mut k: usize = 0;
    while k < n
        invariant
            n == v@.len(),
            k <= n,
            out@.len() == k,
            forall|j: int| 0 <= j < k ==> #[trigger] out@[j] == v@[n - 1 - j],
        decreases n - k,
    {
        out.push(v[n - 1 - k]);
        k += 1;
    }
    assert(out@ =~= v@.reverse());
    out
}

/// Returns the running products of `arr`: position `i` holds the product of
/// the entries before `i`, so position 0 holds 1.
pub fn make_accumulation_arr(arr: &Vec<i32>) -> (out: Vec<i32>)
    requires
        forall|i: int| 0 <= i < arr@.len() ==> fits_i32(#[trigger] product(arr@.take(i))),
    ensures
        out@.len() == arr@.len(),
        forall|i: int| 0 <= i < arr@.len() ==> #[trigger] out@[i] == product(arr@.take(i)),
{
    let n = arr.len();
    let mut out: Vec<i32> = Vec::with_capacity(n);
    let mut product_acc: i32 = 1;
    let mut k: usize = 0;
    assert(arr@.take(0).len() == 0);
    while k < n
        invariant
            n == arr@.len(),
            k <= n,
            out@.len() == k,
            forall|i: int| 0 <= i < n ==> fits_i32(#[trigger] product(arr@.take(i))),
            forall|i: int| 0 <= i < k ==> #[trigger] out@[i] == product(arr@.take(i)),
            k < n ==> product_acc == product(arr@.take(k as int)),
        decreases n - k,
    {
        out.push(product_acc);
        if k + 1 < n {
            proof {
                lemma_product_take_next(arr@, k as int);
                assert(fits_i32(product(arr@.take(k + 1))));
            }
            product_acc = product_acc * arr[k];
        }
        k += 1;
    }
    out
}

/// Returns, for each position of `arr`, the product of the other entries,
/// without dividing: it multiplies the product of the entries before the
/// position by the product of the entries after it.
pub fn get_product_of_all_other_elements_no_division(arr: &Vec<i32>) -> (result: Vec<i32>)
    requires
        forall|i: int| 0 <= i < arr@.len() ==> fits_i32(#[trigger] product(arr@.take(i))),
        forall|i: int| 0 <= i < arr@.len() ==> fits_i32(#[trigger] product(arr@.skip(i + 1))),
        forall|i: int| 0 <= i < arr@.len() ==> fits_i32(#[trigger] product_except(arr@, i)),
    ensures
        is_products_except_self(arr@, result@),
{
    let ghost s = arr@;
    let n = arr.len();
    let prefix_products = make_accumulation_arr(arr);
    let backwards = reversed(arr);
    proof {
        assert forall|i: int| 0 <= i < n implies fits_i32(
            #[trigger] product(backwards@.take(i)),
        ) by {
            assert(backwards@.take(i) =~= s.skip(n - i).reverse());
            lemma_product_reverse(s.skip(n - i));
            assert(s.skip(n - i) == s.skip((n - i - 1) + 1));
            assert(fits_i32(product(s.skip((n - i - 1) + 1))));
        }
    }
    let suffix_backwards = make_accumulation_arr(&backwards);
    let suffix_products = reversed(&suffix_backwards);
    proof {
        assert forall|i: int| 0 <= i < n implies #[trigger] suffix_products@[i] == product(
            s.skip(i + 1),
        ) by {
            let k = n - 1 - i;
            assert(suffix_products@[i] == suffix_backwards@[k]);
            assert(backwards@.take(k) =~= s.skip(i + 1).reverse());
            lemma_product_reverse(s.skip(i + 1));
        }
    }
    let mut result: Vec<i32> = Vec::with_capacity(n);
    let mut i: usize = 0;
    while i < n
        invariant
            s == arr@,
            n == s.len(),
            i <= n,
            prefix_products@.len() == n,
            suffix_products@.len() == n,
            forall|k: int| 0 <= k < n ==> #[trigger] prefix_products@[k] == product(s.take(k)),
            forall|k: int| 0 <= k < n ==> #[trigger] suffix_products@[k] == product(s.skip(k + 1)),
            forall|k: int| 0 <= k < n ==> fits_i32(#[trigger] product_except(s, k)),
            result@.len() == i,
            forall|k: int| 0 <= k < i ==> #[trigger] result@[k] == product_except(s, k),
        decreases n - i,
    {
        proof {
            lemma_product_except_split(s, i as int);
            assert(fits_i32(product_except(s, i as int)));
        }
        result.push(prefix_products[i] * suffix_products[i]);
        i += 1;
    }
    result
}

/// Returns, for each position of `arr`, the product of the other entries,
/// by multiplying them one after the other for each position anew.
pub fn get_product_of_all_other_elements_brute_force(arr: &Vec<i32>) -> (result: Vec<i32>)
    requires
        forall|i: int, j: int|
            0 <= i < arr@.len() && 0 <= j <= arr@.len() ==> fits_i32(
                #[trigger] product_except(arr@.take(j), i),
            ),
    ensures
        is_products_except_self(arr@, result@),
{
    let ghost s = arr@;
    let n = arr.len();
    let mut result: Vec<i32> = Vec::with_capacity(n);
    let mut i: usize = 0;
    while i < n
        invariant
            s == arr@,
            n == s.len(),
            i <= n,
            forall|i: int, j: int|
                0 <= i < n && 0 <= j <= n ==> fits_i32(#[trigger] product_except(s.take(j), i)),
            result@.len() == i,
            forall|k: int| 0 <= k < i ==> #[trigger] result@[k] == product_except(s, k),
        decreases n - i,
    {
        let mut others: i32 = 1;
        let mut j: usize = 0;
        assert(s.take(0).len() == 0);
        while j < n
            invariant
                s == arr@,
                n == s.len(),
                i < n,
                j <= n,
                forall|i: int, j: int|
                    0 <= i < n && 0 <= j <= n ==> fits_i32(#[trigger] product_except(s.take(j), i)),
                others == product_except(s.take(j as int), i as int),
            decreases n - j,
        {
            proof {
                let shorter = s.take(j as int);
                let longer = s.take(j + 1);
                assert(longer.drop_last() =~= shorter);
                assert(fits_i32(product_except(longer, i as int)));
                if i < j {
                    assert(longer.remove(i as int).drop_last() =~= shorter.remove(i as int));
                    assert(longer.remove(i as int).last() == s[j as int]);
                } else if i == j {
                    assert(longer.remove(i as int) =~= shorter);
                }
            }
            if i != j {
                others = others * arr[j];
            }
            j += 1;
        }
        assert(s.take(n as int) =~= s);
        result.push(others);
        i += 1;
    }
    result
}

/// Returns, for each position of `arr`, the product of all entries divided
/// by the entry there, and 0 where the entry is 0. Where `arr` has a lone
/// zero this is not the product of the other entries at the position of
/// that zero; on every other sequence it is.
pub fn get_product_of_all_other_elements(arr: &Vec<i32>) -> (result: Vec<i32>)
    requires
        forall|j: int| 0 <= j <= arr@.len() ==> fits_i32(#[trigger] product(arr@.take(j))),
        forall|i: int|
            0 <= i < arr@.len() && arr@[i] != 0 ==> fits_i32(#[trigger] product_except(arr@, i)),
    ensures
        is_quotients_by_self(arr@, result@),
{
    let ghost s = arr@;
    let n = arr.len();
    let mut entire_product: i32 = 1;
    let mut j: usize = 0;
    assert(s.take(0).len() == 0);
    while j < n
        invariant
            s == arr@,
            n == s.len(),
            j <= n,
            forall|j: int| 0 <= j <= n ==> fits_i32(#[trigger] product(s.take(j))),
            entire_product == product(s.take(j as int)),
        decreases n - j,
    {
        proof {
            lemma_product_take_next(s, j as int);
            assert(fits_i32(product(s.take(j + 1))));
        }
        entire_product = entire_product * arr[j];
        j += 1;
    }
    assert(s.take(n as int) =~= s);
    let mut result: Vec<i32> = Vec::with_capacity(n);
    let mut i: usize = 0;
    while i < n
        invariant
            s == arr@,
            n == s.len(),
            i <= n,
            entire_product == product(s),
            forall|i: int|
                0 <= i < n && s[i] != 0 ==> fits_i32(#[trigger] product_except(s, i)),
            result@.len() == i,
            forall|k: int|
                0 <= k < i ==> #[trigger] result@[k] == if s[k] == 0 {
                    0
                } else {
                    product_except(s, k)
                },
        decreases n - i,
    {
        let x = arr[i];
        if x == 0 {
            result.push(0);
        } else {
            proof {
                let others = product_except(s, i as int);
                lemma_product_factor(s, i as int);
                assert(fits_i32(others));
                lemma_exact_quotient(others, x as int);
                lemma_exact_quotient(-others, x as int);
                assert(-(others * x) == (-others) * x) by (nonlinear_arith);
            }
            result.push(entire_product / x);
        }
        i += 1;
    }
    result
}

/// A multiple of `d` divided by `d` gives the other factor back.
proof fn lemma_exact_quotient(q: int, d: int)
    requires
        d != 0,
    ensures
        (q * d) / d == q,
{
    assert((q * d) / d == q) by (nonlinear_arith)
        requires
            d != 0,
    ;
}

} // verus!
