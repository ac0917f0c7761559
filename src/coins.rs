//! The twelve-coin puzzle: three weighings on a balance find the one coin that is
//! heavier or lighter than the others.
use rand::Rng;
use vstd::prelude::*;

verus! {

/// The items of `arr` among the first `n` whose entry in `groups` is `g`, in order.
pub open spec fn group(arr: Seq<i32>, groups: Seq<i32>, g: i32, n: int) -> Seq<i32>
    decreases n,
{
    if n <= 0 {
        Seq::empty()
    } else if groups[n - 1] == g {
        group(arr, groups, g, n - 1).push(arr[n - 1])
    } else {
        group(arr, groups, g, n - 1)
    }
}

/// Sum of the weights in `s`.
pub open spec fn total(s: Seq<i32>) -> int
    decreases s.len(),
{
    if s.len() == 0 {
        0
    } else {
        total(s.drop_last()) + s.last()
    }
}

/// Splits the weights `arr` into a left pan (group -1), the table (group 0) and a right
/// pan (group 1); an item with any other group is left out.
pub fn siwake(arr: &Vec<i32>, groups: &Vec<i32>) -> (r: (Vec<i32>, Vec<i32>, Vec<i32>))
    requires
        groups@.len() >= arr@.len(),
    ensures
        r.0@ == group(arr@, groups@, -1i32, arr@.len() as int),
        r.1@ == group(arr@, groups@, 0, arr@.len() as int),
        r.2@ == group(arr@, groups@, 1, arr@.len() as int),
{
    let mut left: Vec<i32> = Vec::new();
    let mut center: Vec<i32> = Vec::new();
    let mut right: Vec<i32> = Vec::new();
    for i in 0..arr.len()
        invariant
            groups@.len() >= arr@.len(),
            left@ == group(arr@, groups@, -1i32, i as int),
            center@ == group(arr@, groups@, 0, i as int),
            right@ == group(arr@, groups@, 1, i as int),
    {
        let g = groups[i];
        if g == -1 {
            left.push(arr[i]);
        } else if g == 0 {
            center.push(arr[i]);
        } else if g == 1 {
            right.push(arr[i]);
        }
    }
    (left, center, right)
}

fn sum(s: &Vec<i32>) -> (r: i128)
    ensures
        r == total(s@),
{
    let mut acc: i128 = 0;
    for i in 0..s.len()
        invariant
            acc == total(s@.subrange(0, i as int)),
            -0x8000_0000 * i <= acc <= 0x8000_0000 * i,
    {
        assert(s@.subrange(0, i + 1).drop_last() =~= s@.subrange(0, i as int));
        acc = acc + s[i] as i128;
    }
    assert(s@.subrange(0, s@.len() as int) =~= s@);
    acc
}

/// A balance: 1 when the right pan is heavier, -1 when the left one is, 0 when level.
pub fn tenbin(left: Vec<i32>, right: Vec<i32>) -> (r: i32)
    requires
        i32::MIN <= total(left@) <= i32::MAX,
        i32::MIN <= total(right@) <= i32::MAX,
        i32::MIN <= total(right@) - total(left@) <= i32::MAX,
    ensures
        r == if total(right@) > total(left@) {
            1int
        } else if total(right@) < total(left@) {
            -1int
        } else {
            0int
        },
{
    let left_sum = sum(&left) as i32;
    let right_sum = sum(&right) as i32;
    let d = right_sum - left_sum;
    if d > 0 {
        1
    } else if d < 0 {
        -1
    } else {
        0
    }
}

/// Twelve coins where only coin `k` is off, heavier (`w == 1`) or lighter (`w == -1`).
pub open spec fn single_odd(x: Seq<i32>, k: int, w: i32) -> bool {
    &&& x.len() == 12
    &&& 0 <= k < 12
    &&& w == 1 || w == -1
    &&& x[k] == w
    &&& forall|i: int| 0 <= i < 12 && i != k ==> x[i] == 0
}

/// Twelve coins, each normal (0), heavier (1) or lighter (-1).
pub open spec fn coins_in_range(x: Seq<i32>) -> bool {
    x.len() == 12 && forall|i: int| 0 <= i < 12 ==> -1 <= #[trigger] x[i] <= 1
}

/// What a balance shows when only a coin of weight `w` is off and it lies in group `g`.
pub open spec fn reading(g: i32, w: i32) -> int {
    if g == 1 {
        w as int
    } else if g == -1 {
        -w
    } else {
        0
    }
}

proof fn lemma_total_push(s: Seq<i32>, v: i32)
    ensures
        total(s.push(v)) == total(s) + v,
{
    assert(s.push(v).drop_last() =~= s);
}

proof fn lemma_group_bounded(x: Seq<i32>, gs: Seq<i32>, c: i32, n: int)
    requires
        coins_in_range(x),
        gs.len() == 12,
        n <= 12,
    ensures
        group(x, gs, c, n).len() <= 12,
        forall|i: int|
            0 <= i < group(x, gs, c, n).len() ==> -1 <= #[trigger] group(x, gs, c, n)[i] <= 1,
        group(x, gs, c, n).len() <= if n < 0 {
            0
        } else {
            n
        },
    decreases n,
{
    if n > 0 {
        lemma_group_bounded(x, gs, c, n - 1);
    }
}

proof fn lemma_small_sums(s: Seq<i32>)
    requires
        s.len() <= 12,
        forall|i: int| 0 <= i < s.len() ==> -1 <= #[trigger] s[i] <= 1,
    ensures
        -12 <= total(s) <= 12,
{
    lemma_prefix_bound(s, s.len() as int);
    assert(s.subrange(0, s.len() as int) =~= s);
}

proof fn lemma_prefix_bound(s: Seq<i32>, n: int)
    requires
        0 <= n <= s.len(),
        forall|i: int| 0 <= i < s.len() ==> -1 <= #[trigger] s[i] <= 1,
    ensures
        -n <= total(s.subrange(0, n)) <= n,
    decreases n,
{
    if n > 0 {
        lemma_prefix_bound(s, n - 1);
        assert(s.subrange(0, n).drop_last() =~= s.subrange(0, n - 1));
        assert(-1 <= s[n - 1] <= 1);
    }
}

proof fn lemma_group_total(x: Seq<i32>, gs: Seq<i32>, c: i32, n: int, k: int, w: i32)
    requires
        single_odd(x, k, w),
        gs.len() == 12,
        0 <= n <= 12,
    ensures
        total(group(x, gs, c, n)) == if k < n && gs[k] == c {
            w as int
        } else {
            0
        },
    decreases n,
{
    if n > 0 {
        lemma_group_total(x, gs, c, n - 1, k, w);
        if gs[n - 1] == c {
            lemma_total_push(group(x, gs, c, n - 1), x[n - 1]);
        }
    }
}

/// Puts the coins of group -1 on the left pan and those of group 1 on the right, and
/// reads the balance.
fn weigh(x: &Vec<i32>, groups: Vec<i32>) -> (r: i32)
    requires
        coins_in_range(x@),
        groups@.len() == 12,
    ensures
        forall|k: int, w: i32| #[trigger] single_odd(x@, k, w) ==> r == reading(groups@[k], w),
{
    let y = siwake(x, &groups);
    proof {
        lemma_group_bounded(x@, groups@, -1i32, 12);
        lemma_group_bounded(x@, groups@, 1i32, 12);
        lemma_small_sums(y.0@);
        lemma_small_sums(y.2@);
    }
    let z = tenbin(y.0, y.2);
    proof {
        assert forall|k: int, w: i32| #[trigger] single_odd(x@, k, w) implies z == reading(
            groups@[k],
            w,
        ) by {
            lemma_group_total(x@, groups@, -1i32, 12, k, w);
            lemma_group_total(x@, groups@, 1i32, 12, k, w);
        }
    }
    z
}

/// The second and third weighings after the right pan went down: the odd coin is a
/// heavy one among coins 9 to 12 or a light one among coins 1 to 4.
fn handle_right_heavy(x: &Vec<i32>) -> (r: Option<(usize, i32)>)
    requires
        coins_in_range(x@),
    ensures
        forall|k: int, w: i32|
            #[trigger] single_odd(x@, k, w) && ((8 <= k < 12 && w == 1) || (0 <= k < 4 && w == -1))
                ==> r == Some((k as usize, w)),
{
    let z = weigh(x, vec![-1, -1, 1, 0, 1, 1, 0, 0, -1, -1, 1, 0]);
    match z {
        1 => {
            let z = weigh(x, vec![-1, 1, 0, 0, 0, 0, 0, 0, 0, 0, 0, 0]);
            match z {
                1 => Some((0, -1)),
                -1 => Some((1, -1)),
                0 => Some((10, 1)),
                _ => None,
            }
        },
        -1 => {
            let z = weigh(x, vec![0, 0, 0, 0, 0, 0, 0, 0, -1, 1, 0, 0]);
            match z {
                1 => Some((9, 1)),
                -1 => Some((8, 1)),
                0 => Some((2, -1)),
                _ => None,
            }
        },
        0 => {
            let z = weigh(x, vec![0, 0, 0, 0, -1, 0, 0, 0, 0, 0, 0, 1]);
            match z {
                1 => Some((11, 1)),
                0 => Some((3, -1)),
                _ => None,
            }
        },
        _ => None,
    }
}

/// The second and third weighings after the left pan went down: the odd coin is a
/// heavy one among coins 1 to 4 or a light one among coins 9 to 12.
fn handle_left_heavy(x: &Vec<i32>) -> (r: Option<(usize, i32)>)
    requires
        coins_in_range(x@),
    ensures
        forall|k: int, w: i32|
            #[trigger] single_odd(x@, k, w) && ((0 <= k < 4 && w == 1) || (8 <= k < 12 && w == -1))
                ==> r == Some((k as usize, w)),
{
    let z = weigh(x, vec![-1, -1, 1, 0, 1, 1, 0, 0, -1, -1, 1, 0]);
    match z {
        1 => {
            let z = weigh(x, vec![0, 0, 0, 0, 0, 0, 0, 0, -1, 1, 0, 0]);
            match z {
                1 => Some((8, -1)),
                -1 => Some((9, -1)),
                0 => Some((2, 1)),
                _ => None,
            }
        },
        -1 => {
            let z = weigh(x, vec![-1, 1, 0, 0, 0, 0, 0, 0, 0, 0, 0, 0]);
            match z {
                1 => Some((1, 1)),
                -1 => Some((0, 1)),
                0 => Some((10, -1)),
                _ => None,
            }
        },
        0 => {
            let z = weigh(x, vec![0, 0, 0, 0, -1, 0, 0, 0, 0, 0, 0, 1]);
            match z {
                -1 => Some((11, -1)),
                0 => Some((3, 1)),
                _ => None,
            }
        },
        _ => None,
    }
}

/// The second and third weighings after the pans balanced: the odd coin is among coins
/// 5 to 8.
fn handle_balanced(x: &Vec<i32>) -> (r: Option<(usize, i32)>)
    requires
        coins_in_range(x@),
    ensures
        forall|k: int, w: i32| #[trigger] single_odd(x@, k, w) && 4 <= k < 8 ==> r == Some(
            (k as usize, w),
        ),
{
    let z = weigh(x, vec![1, 0, 0, 0, -1, -1, 1, 0, 0, 0, 0, 0]);
    match z {
        1 => {
            let z = weigh(x, vec![0, 0, 0, 0, -1, 1, 0, 0, 0, 0, 0, 0]);
            match z {
                1 => Some((4, -1)),
                -1 => Some((5, -1)),
                0 => Some((6, 1)),
                _ => None,
            }
        },
        -1 => {
            let z = weigh(x, vec![0, 0, 0, 0, -1, 1, 0, 0, 0, 0, 0, 0]);
            match z {
                1 => Some((5, 1)),
                -1 => Some((4, 1)),
                0 => Some((6, -1)),
                _ => None,
            }
        },
        0 => {
            let z = weigh(x, vec![1, 0, 0, 0, 0, 0, 0, -1, 0, 0, 0, 0]);
            match z {
                1 => Some((7, -1)),
                -1 => Some((7, 1)),
                _ => None,
            }
        },
        _ => None,
    }
}

/// Finds, in three weighings, the one coin of twelve that is heavier or lighter than the
/// others: its index and its weight (1 heavier, -1 lighter).
pub fn solve_coin_problem(x: &Vec<i32>) -> (r: Option<(usize, i32)>)
    requires
        coins_in_range(x@),
    ensures
        forall|k: int, w: i32| #[trigger] single_odd(x@, k, w) ==> r == Some((k as usize, w)),
{
    let z = weigh(x, vec![-1, -1, -1, -1, 0, 0, 0, 0, 1, 1, 1, 1]);
    match z {
        1 => handle_right_heavy(x),
        -1 => handle_left_heavy(x),
        0 => handle_balanced(x),
        _ => None,
    }
}

/// The verdict that names case `i` of the puzzle: coin `i mod 12 + 1`, lighter ("ー１")
/// for the first twelve cases and heavier ("１") for the others.
pub open spec fn pattern_label(i: int) -> Seq<char> {
    if i == 0 {
        "１番目がー１"@
    } else     if i == 1 {
        "２番目がー１"@
    } else     if i == 2 {
        "３番目がー１"@
    } else     if i == 3 {
        "４番目がー１"@
    } else     if i == 4 {
        "５番目がー１"@
    } else     if i == 5 {
        "６番目がー１"@
    } else     if i == 6 {
        "７番目がー１"@
    } else     if i == 7 {
        "８番目がマイナス１"@
    } else     if i == 8 {
        "９番目がー１"@
    } else     if i == 9 {
        "１０番目がー１"@
    } else     if i == 10 {
        "１１番目がー１"@
    } else     if i == 11 {
        "１２番目がー１"@
    } else     if i == 12 {
        "１番目が１"@
    } else     if i == 13 {
        "２番目が１"@
    } else     if i == 14 {
        "３番目が１"@
    } else     if i == 15 {
        "４番目が１"@
    } else     if i == 16 {
        "５番目が１"@
    } else     if i == 17 {
        "６番目が１"@
    } else     if i == 18 {
        "７番目が１"@
    } else     if i == 19 {
        "８番目が１"@
    } else     if i == 20 {
        "９番目が１"@
    } else     if i == 21 {
        "１０番目が１"@
    } else     if i == 22 {
        "１１番目が１"@
    } else {
        "１２番目が１"@
    }
}

/// The 24 cases of the puzzle, each with the verdict that names it: first each coin
/// lighter, then each coin heavier.
pub fn generate_all_patterns() -> (r: Vec<(Vec<i32>, &'static str)>)
    ensures
        r@.len() == 24,
        forall|i: int| 0 <= i < 12 ==> single_odd(#[trigger] r@[i].0@, i, -1i32),
        forall|i: int| 12 <= i < 24 ==> single_odd(#[trigger] r@[i].0@, i - 12, 1),
        forall|i: int| 0 <= i < 24 ==> (#[trigger] r@[i]).1@ == pattern_label(i),
{
    let r = vec![
        (vec![-1, 0, 0, 0, 0, 0, 0, 0, 0, 0, 0, 0], "１番目がー１"),
        (vec![0, -1, 0, 0, 0, 0, 0, 0, 0, 0, 0, 0], "２番目がー１"),
        (vec![0, 0, -1, 0, 0, 0, 0, 0, 0, 0, 0, 0], "３番目がー１"),
        (vec![0, 0, 0, -1, 0, 0, 0, 0, 0, 0, 0, 0], "４番目がー１"),
        (vec![0, 0, 0, 0, -1, 0, 0, 0, 0, 0, 0, 0], "５番目がー１"),
        (vec![0, 0, 0, 0, 0, -1, 0, 0, 0, 0, 0, 0], "６番目がー１"),
        (vec![0, 0, 0, 0, 0, 0, -1, 0, 0, 0, 0, 0], "７番目がー１"),
        (vec![0, 0, 0, 0, 0, 0, 0, -1, 0, 0, 0, 0], "８番目がマイナス１"),
        (vec![0, 0, 0, 0, 0, 0, 0, 0, -1, 0, 0, 0], "９番目がー１"),
        (vec![0, 0, 0, 0, 0, 0, 0, 0, 0, -1, 0, 0], "１０番目がー１"),
        (vec![0, 0, 0, 0, 0, 0, 0, 0, 0, 0, -1, 0], "１１番目がー１"),
        (vec![0, 0, 0, 0, 0, 0, 0, 0, 0, 0, 0, -1], "１２番目がー１"),
        (vec![1, 0, 0, 0, 0, 0, 0, 0, 0, 0, 0, 0], "１番目が１"),
        (vec![0, 1, 0, 0, 0, 0, 0, 0, 0, 0, 0, 0], "２番目が１"),
        (vec![0, 0, 1, 0, 0, 0, 0, 0, 0, 0, 0, 0], "３番目が１"),
        (vec![0, 0, 0, 1, 0, 0, 0, 0, 0, 0, 0, 0], "４番目が１"),
        (vec![0, 0, 0, 0, 1, 0, 0, 0, 0, 0, 0, 0], "５番目が１"),
        (vec![0, 0, 0, 0, 0, 1, 0, 0, 0, 0, 0, 0], "６番目が１"),
        (vec![0, 0, 0, 0, 0, 0, 1, 0, 0, 0, 0, 0], "７番目が１"),
        (vec![0, 0, 0, 0, 0, 0, 0, 1, 0, 0, 0, 0], "８番目が１"),
        (vec![0, 0, 0, 0, 0, 0, 0, 0, 1, 0, 0, 0], "９番目が１"),
        (vec![0, 0, 0, 0, 0, 0, 0, 0, 0, 1, 0, 0], "１０番目が１"),
        (vec![0, 0, 0, 0, 0, 0, 0, 0, 0, 0, 1, 0], "１１番目が１"),
        (vec![0, 0, 0, 0, 0, 0, 0, 0, 0, 0, 0, 1], "１２番目が１"),
    ];
    r
}

/// Relies on `rand::Rng::gen_range` on `rand::thread_rng()`: a value of the half-open
/// range `0..n`, which must not be empty.
#[verifier::external_body]
fn random_below(n: usize) -> (r: usize)
    requires
        n > 0,
    ensures
        r < n,
{
    rand::thread_rng().gen_range(0..n)
}

/// Relies on `rand::random::<bool>`: a fair coin toss.
#[verifier::external_body]
fn random_bool() -> bool {
    rand::random::<bool>()
}

/// Twelve coins where coin `index` is heavier (1) when `heavy` holds, else lighter (-1).
pub fn assign(index: usize, heavy: bool) -> (r: Vec<i32>)
    requires
        index < 12,
    ensures
        single_odd(r@, index as int, if heavy {
            1i32
        } else {
            -1i32
        }),
{
    let mut arr: Vec<i32> = vec![0; 12];
    let value: i32 = if heavy {
        1
    } else {
        -1
    };
    arr.set(index, value);
    arr
}

/// Twelve coins of which one, chosen at random, is heavier (1) or lighter (-1).
pub fn random_assign() -> (r: Vec<i32>)
    ensures
        exists|k: int, w: i32| #[trigger] single_odd(r@, k, w),
{
    let index = random_below(12);
    let heavy = random_bool();
    assign(index, heavy)
}

} // verus!
