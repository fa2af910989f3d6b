use vstd::prelude::*;
use vstd::utf8::encode_utf8;
use crate::error::Error;
use crate::migration::Migration;

verus! {

/// Byte-wise lexicographic order, strict.
pub open spec fn bytes_lt(a: Seq<u8>, b: Seq<u8>) -> bool
    decreases a.len(),
{
    if a.len() == 0 {
        b.len() > 0
    } else if b.len() == 0 {
        false
    } else if a[0] != b[0] {
        a[0] < b[0]
    } else {
        bytes_lt(a.drop_first(), b.drop_first())
    }
}

proof fn lemma_bytes_lt_trans(a: Seq<u8>, b: Seq<u8>, c: Seq<u8>)
    requires
        bytes_lt(a, b),
        bytes_lt(b, c),
    ensures
        bytes_lt(a, c),
    decreases a.len(),
{
    if a.len() > 0 && b.len() > 0 && c.len() > 0 && a[0] == b[0] && b[0] == c[0] {
        lemma_bytes_lt_trans(a.drop_first(), b.drop_first(), c.drop_first());
    }
}

proof fn lemma_bytes_lt_total(a: Seq<u8>, b: Seq<u8>)
    requires
        !bytes_lt(a, b),
        a != b,
    ensures
        bytes_lt(b, a),
    decreases a.len(),
{
    if a.len() == 0 {
        assert(b.len() == 0);
        assert(a =~= b);
    } else if b.len() > 0 && a[0] == b[0] {
        if a.drop_first() == b.drop_first() {
            assert(a.drop_first().len() == b.drop_first().len());
            assert(a =~= b) by {
                assert forall|i: int| 0 <= i < a.len() implies a[i] == b[i] by {
                    if i > 0 {
                        assert(a[i] == a.drop_first()[i - 1]);
                        assert(b[i] == b.drop_first()[i - 1]);
                    }
                }
            }
        }
        lemma_bytes_lt_total(a.drop_first(), b.drop_first());
    }
}

/// The UTF-8 bytes of an app name.
pub open spec fn app_bytes(m: Migration) -> Seq<u8> {
    encode_utf8(m.app_name@)
}

/// Tie-break order: app name bytes, then sequence number.
#[verifier::opaque]
pub open spec fn key_le(a: Migration, b: Migration) -> bool {
    bytes_lt(app_bytes(a), app_bytes(b)) || (app_bytes(a) == app_bytes(b) && a.sequence_number
        <= b.sequence_number)
}

proof fn lemma_key_total(a: Migration, b: Migration)
    ensures
        key_le(a, b) || key_le(b, a),
{
    reveal(key_le);
    if !bytes_lt(app_bytes(a), app_bytes(b)) && app_bytes(a) != app_bytes(b) {
        lemma_bytes_lt_total(app_bytes(a), app_bytes(b));
    }
}

proof fn lemma_key_trans(a: Migration, b: Migration, c: Migration)
    requires
        key_le(a, b),
        key_le(b, c),
    ensures
        key_le(a, c),
{
    reveal(key_le);
    if bytes_lt(app_bytes(a), app_bytes(b)) && bytes_lt(app_bytes(b), app_bytes(c)) {
        lemma_bytes_lt_trans(app_bytes(a), app_bytes(b), app_bytes(c));
    }
}

fn bytes_less(a: &[u8], b: &[u8]) -> (r: bool)
    ensures
        r == bytes_lt(a@, b@),
{
    let mut i: usize = 0;
    proof {
        assert(a@.subrange(0, a@.len() as int) =~= a@);
        assert(b@.subrange(0, b@.len() as int) =~= b@);
    }
    while i < a.len() && i < b.len() && a[i] == b[i]
        invariant
            i <= a@.len(),
            i <= b@.len(),
            bytes_lt(a@, b@) == bytes_lt(a@.subrange(i as int, a@.len() as int), b@.subrange(i as int, b@.len() as int)),
        decreases a@.len() - i,
    {
        proof {
            let sa = a@.subrange(i as int, a@.len() as int);
            let sb = b@.subrange(i as int, b@.len() as int);
            assert(sa.drop_first() =~= a@.subrange(i + 1, a@.len() as int));
            assert(sb.drop_first() =~= b@.subrange(i + 1, b@.len() as int));
        }
        i = i + 1;
    }
    if i < a.len() && i < b.len() {
        a[i] < b[i]
    } else {
        i == a.len() && i < b.len()
    }
}

fn bytes_equal(a: &[u8], b: &[u8]) -> (r: bool)
    ensures
        r == (a@ == b@),
{
    if a.len() != b.len() {
        return false;
    }
    let mut i: usize = 0;
    while i < a.len()
        invariant
            i <= a@.len(),
            a@.len() == b@.len(),
            forall|k: int| 0 <= k < i ==> a@[k] == b@[k],
        decreases a@.len() - i,
    {
        if a[i] != b[i] {
            return false;
        }
        i = i + 1;
    }
    assert(a@ =~= b@);
    true
}

fn key_less_eq(a: &Migration, b: &Migration) -> (r: bool)
    ensures
        r == key_le(*a, *b),
{
    proof {
        reveal(key_le);
    }
    let ab = a.app_name.as_str().as_bytes();
    let bb = b.app_name.as_str().as_bytes();
    bytes_less(ab, bb) || (bytes_equal(ab, bb) && a.sequence_number <= b.sequence_number)
}

/// Whether migration `j` names migration `i` among its dependencies.
pub open spec fn names_dependency(ms: Seq<Migration>, i: int, j: int) -> bool {
    exists|k: int|
        0 <= k < ms[j].depends_on@.len() && (#[trigger] ms[j].depends_on@[k]).app_name@
            == ms[i].app_name@ && ms[j].depends_on@[k].sequence_number == ms[i].sequence_number
}

/// Migration `i` must be applied before migration `j`: `j` depends on it,
/// or it is an earlier migration of the same app.
#[verifier::opaque]
pub open spec fn must_precede(ms: Seq<Migration>, i: int, j: int) -> bool {
    ||| (ms[i].app_name@ == ms[j].app_name@ && ms[i].sequence_number < ms[j].sequence_number)
    ||| names_dependency(ms, i, j)
}

/// `order` lists every index of `ms` once.
pub open spec fn is_permutation(n: nat, order: Seq<usize>) -> bool {
    &&& order.len() == n
    &&& order.no_duplicates()
    &&& forall|p: int| 0 <= p < order.len() ==> (#[trigger] order[p]) < n
}

/// `order` is a permutation in which each migration comes after all those
/// that must precede it.
pub open spec fn valid_order(ms: Seq<Migration>, order: Seq<usize>) -> bool {
    &&& is_permutation(ms.len(), order)
    &&& forall|p: int, q: int|
        0 <= p < order.len() && 0 <= q < order.len() && must_precede(
            ms,
            #[trigger] order[p] as int,
            #[trigger] order[q] as int,
        ) ==> p < q
}

/// Everything that must precede `j` is in `done`.
pub open spec fn ready(ms: Seq<Migration>, done: Seq<usize>, j: int) -> bool {
    forall|i: int| 0 <= i < ms.len() && #[trigger] must_precede(ms, i, j) ==> done.contains(i as usize)
}

/// At each step the order takes a ready migration that is least in
/// `key_le` among all ready ones.
pub open spec fn least_first(ms: Seq<Migration>, order: Seq<usize>) -> bool {
    &&& forall|p: int| 0 <= p < order.len() ==> ready(ms, order.take(p), #[trigger] order[p] as int)
    &&& forall|p: int, j: int|
        0 <= p < order.len() && 0 <= j < ms.len() && !order.take(p).contains(j as usize) && #[trigger] ready(
            ms,
            order.take(p),
            j,
        ) ==> key_le(ms[#[trigger] order[p] as int], ms[j])
}

/// There is no order in which every migration follows those it depends on.
pub open spec fn has_cycle(ms: Seq<Migration>) -> bool {
    !exists|o: Seq<usize>| valid_order(ms, o)
}

fn precedes(ms: &Vec<Migration>, i: usize, j: usize) -> (r: bool)
    requires
        i < ms@.len(),
        j < ms@.len(),
    ensures
        r == must_precede(ms@, i as int, j as int),
{
    proof {
        reveal(must_precede);
    }
    let a = &ms[i];
    let b = &ms[j];
    if a.app_name == b.app_name && a.sequence_number < b.sequence_number {
        return true;
    }
    let mut k: usize = 0;
    while k < b.depends_on.len()
        invariant
            k <= b.depends_on@.len(),
            i < ms@.len(),
            j < ms@.len(),
            *b == ms@[j as int],
            *a == ms@[i as int],
            forall|x: int|
                0 <= x < k ==> !((#[trigger] b.depends_on@[x]).app_name@ == a.app_name@
                    && b.depends_on@[x].sequence_number == a.sequence_number),
        decreases b.depends_on@.len() - k,
    {
        if b.depends_on[k].app_name == a.app_name && b.depends_on[k].sequence_number
            == a.sequence_number {
            assert(names_dependency(ms@, i as int, j as int)) by {
                assert(b.depends_on@[k as int].app_name@ == a.app_name@);
            }
            proof {
                reveal(must_precede);
            }
            return true;
        }
        k = k + 1;
    }
    proof {
        reveal(must_precede);
    }
    false
}

fn is_ready(ms: &Vec<Migration>, placed: &Vec<bool>, j: usize) -> (r: bool)
    requires
        j < ms@.len(),
        placed@.len() == ms@.len(),
    ensures
        r == forall|i: int| 0 <= i < ms@.len() && #[trigger] must_precede(ms@, i, j as int) ==> placed@[i],
{
    let mut i: usize = 0;
    while i < ms.len()
        invariant
            i <= ms@.len(),
            j < ms@.len(),
            placed@.len() == ms@.len(),
            forall|x: int| 0 <= x < i && #[trigger] must_precede(ms@, x, j as int) ==> placed@[x],
        decreases ms@.len() - i,
    {
        if !placed[i] && precedes(ms, i, j) {
            return false;
        }
        i = i + 1;
    }
    true
}

/// A sequence of distinct indices below `n` has at most `n` entries, and
/// exactly `n` just when it holds every index below `n`.
pub(crate) proof fn lemma_index_count(s: Seq<usize>, n: nat)
    requires
        n <= usize::MAX,
        s.no_duplicates(),
        forall|p: int| 0 <= p < s.len() ==> (#[trigger] s[p]) < n,
    ensures
        s.len() <= n,
        s.len() == n <==> forall|k: usize| k < n ==> s.contains(k),
    decreases n,
{
    if n == 0 {
        if s.len() > 0 {
            assert(s[0] < 0);
        }
    } else {
        let top = (n - 1) as usize;
        if s.contains(top) {
            let idx = s.index_of(top);
            assert(s[idx] == top);
            let t = s.remove(idx);
            assert forall|p: int| 0 <= p < t.len() implies (#[trigger] t[p]) < n - 1 by {
                if p < idx {
                    assert(t[p] == s[p]);
                } else {
                    assert(t[p] == s[p + 1]);
                }
            }
            assert(t.no_duplicates()) by {
                assert forall|a: int, b: int| 0 <= a < b < t.len() implies t[a] != t[b] by {
                    let sa = if a < idx { a } else { a + 1 };
                    let sb = if b < idx { b } else { b + 1 };
                    assert(t[a] == s[sa] && t[b] == s[sb]);
                }
            }
            lemma_index_count(t, (n - 1) as nat);
            assert forall|k: usize| k < n - 1 && t.contains(k) implies s.contains(k) by {
                let p = t.index_of(k);
                if p < idx {
                    assert(s[p] == k);
                } else {
                    assert(s[p + 1] == k);
                }
            }
            assert forall|k: usize| k < n - 1 && s.contains(k) implies t.contains(k) by {
                let p = s.index_of(k);
                assert(s[p] == k);
                assert(p != idx);
                if p < idx {
                    assert(t[p] == k);
                } else {
                    assert(t[p - 1] == k);
                }
            }
        } else {
            assert forall|p: int| 0 <= p < s.len() implies (#[trigger] s[p]) < n - 1 by {
                assert(s.contains(s[p]));
            }
            lemma_index_count(s, (n - 1) as nat);
        }
    }
}

/// The migrations that `order` has not placed: each waits on another
/// unplaced one.
pub open spec fn stuck(ms: Seq<Migration>, order: Seq<usize>) -> bool {
    forall|k: int|
        0 <= k < ms.len() && !#[trigger] order.contains(k as usize) ==> exists|i: int|
            0 <= i < ms.len() && #[trigger] must_precede(ms, i, k) && !order.contains(i as usize)
}

proof fn lemma_stuck_prefix(ms: Seq<Migration>, order: Seq<usize>, o: Seq<usize>, p: int)
    requires
        ms.len() <= usize::MAX,
        valid_order(ms, o),
        stuck(ms, order),
        0 <= p < o.len(),
    ensures
        order.contains(o[p]),
    decreases p,
{
    if !order.contains(o[p]) {
        let k = o[p] as int;
        assert(0 <= k < ms.len());
        assert(!order.contains(k as usize));
        let i = choose|i: int|
            0 <= i < ms.len() && #[trigger] must_precede(ms, i, k) && !order.contains(i as usize);
        lemma_index_count(o, ms.len());
        assert((i as usize) < ms.len());
        assert(o.contains(i as usize));
        let q = o.index_of(i as usize);
        assert(o[q] == i as usize);
        assert(must_precede(ms, o[q] as int, o[p] as int));
        lemma_stuck_prefix(ms, order, o, q);
    }
}

proof fn lemma_stuck_no_order(ms: Seq<Migration>, order: Seq<usize>, k: int)
    requires
        ms.len() <= usize::MAX,
        stuck(ms, order),
        0 <= k < ms.len(),
        !order.contains(k as usize),
    ensures
        has_cycle(ms),
{
    if exists|o: Seq<usize>| valid_order(ms, o) {
        let o = choose|o: Seq<usize>| valid_order(ms, o);
        lemma_index_count(o, ms.len());
        assert(o.contains(k as usize));
        let p = o.index_of(k as usize);
        lemma_stuck_prefix(ms, order, o, p);
    }
}

proof fn lemma_push_least(ms: Seq<Migration>, old_order: Seq<usize>, b: usize)
    requires
        least_first(ms, old_order),
        b < ms.len(),
        ready(ms, old_order, b as int),
        forall|k: int|
            0 <= k < ms.len() && !old_order.contains(k as usize) && #[trigger] ready(ms, old_order, k)
                ==> key_le(ms[b as int], ms[k]),
    ensures
        least_first(ms, old_order.push(b)),
{
    let order = old_order.push(b);
    assert(order.take(old_order.len() as int) =~= old_order);
    assert forall|p: int| 0 <= p < old_order.len() implies order.take(p) == old_order.take(p) by {
        assert(order.take(p) =~= old_order.take(p));
    }
    assert forall|p: int| 0 <= p < order.len() implies ready(ms, order.take(p), #[trigger] order[p] as int) by {
        if p < old_order.len() {
            assert(order.take(p) == old_order.take(p));
        }
    }
    assert forall|p: int, j: int|
        0 <= p < order.len() && 0 <= j < ms.len() && !order.take(p).contains(j as usize) && #[trigger] ready(
            ms,
            order.take(p),
            j,
        ) implies key_le(ms[#[trigger] order[p] as int], ms[j]) by {
        if p < old_order.len() {
            assert(order.take(p) == old_order.take(p));
            assert(order[p] == old_order[p]);
        }
    }
}

/// Orders all migrations so that each follows the migrations it depends on
/// and the earlier migrations of its own app; among the migrations free to
/// go next, the least by app name and number goes first. Fails exactly when
/// the dependencies form a cycle.
pub fn build_plan(ms: &Vec<Migration>) -> (r: Result<Vec<usize>, Error>)
    ensures
        r matches Ok(order) ==> valid_order(ms@, order@) && least_first(ms@, order@),
        r is Err <==> has_cycle(ms@),
        r matches Err(e) ==> e is CyclicDependency,
{
    let n = ms.len();
    let mut placed: Vec<bool> = Vec::new();
    while placed.len() < n
        invariant
            placed@.len() <= n,
            n == ms@.len(),
            forall|i: int| 0 <= i < placed@.len() ==> !placed@[i],
        decreases n - placed@.len(),
    {
        placed.push(false);
    }
    let mut order: Vec<usize> = Vec::new();
    while order.len() < n
        invariant
            n == ms@.len(),
            placed@.len() == n,
            order@.len() <= n,
            forall|i: int| 0 <= i < n ==> (placed@[i] <==> order@.contains(i as usize)),
            order@.no_duplicates(),
            forall|p: int| 0 <= p < order@.len() ==> (#[trigger] order@[p]) < n,
            least_first(ms@, order@),
        decreases n - order@.len(),
    {
        proof {
            lemma_index_count(order@, n as nat);
        }
        let mut best: Option<usize> = None;
        let mut j: usize = 0;
        while j < n
            invariant
                n == ms@.len(),
                placed@.len() == n,
                j <= n,
                best matches Some(b) ==> b < n && !placed@[b as int] && ready(ms@, order@, b as int)
                    && forall|k: int|
                    0 <= k < j && !placed@[k] && #[trigger] ready(ms@, order@, k) ==> key_le(
                        ms@[b as int],
                        ms@[k],
                    ),
                best is None ==> forall|k: int|
                    0 <= k < j && !placed@[k] ==> !#[trigger] ready(ms@, order@, k),
                forall|i: int| 0 <= i < n ==> (placed@[i] <==> order@.contains(i as usize)),
            decreases n - j,
        {
            if !placed[j] {
                let rj = is_ready(ms, &placed, j);
                proof {
                    assert(rj == ready(ms@, order@, j as int));
                }
                if rj {
                    proof {
                        lemma_key_total(ms@[j as int], ms@[j as int]);
                    }
                    match best {
                        None => {
                            best = Some(j);
                        },
                        Some(b) => {
                            if !key_less_eq(&ms[b], &ms[j]) {
                                proof {
                                    lemma_key_total(ms@[b as int], ms@[j as int]);
                                    assert forall|k: int|
                                        0 <= k < j && !placed@[k] && #[trigger] ready(ms@, order@, k) implies key_le(
                                        ms@[j as int],
                                        ms@[k],
                                    ) by {
                                        lemma_key_trans(ms@[j as int], ms@[b as int], ms@[k]);
                                    }
                                }
                                best = Some(j);
                            }
                        },
                    }
                }
            }
            j = j + 1;
        }
        match best {
            None => {
                proof {
                    assert(!(forall|k: usize| k < n ==> order@.contains(k)));
                    let k = choose|k: usize| k < n && !order@.contains(k);
                    assert(!placed@[k as int]);
                    assert(!ready(ms@, order@, k as int));
                    assert forall|x: int|
                        0 <= x < ms@.len() && !#[trigger] order@.contains(x as usize) implies exists|i: int|
                        0 <= i < ms@.len() && #[trigger] must_precede(ms@, i, x) && !order@.contains(i as usize) by {
                        assert(!placed@[x]);
                        assert(!ready(ms@, order@, x));
                    }
                    assert(stuck(ms@, order@));
                    lemma_stuck_no_order(ms@, order@, k as int);
                }
                return Err(Error::CyclicDependency);
            },
            Some(b) => {
                let ghost old_order = order@;
                let ghost placed_before = placed@;
                proof {
                    lemma_index_count(old_order, n as nat);
                }
                placed.set(b, true);
                order.push(b);
                proof {
                    assert(order@ == old_order.push(b));
                    assert forall|k: int|
                        0 <= k < ms@.len() && !old_order.contains(k as usize) && #[trigger] ready(ms@, old_order, k)
                            implies key_le(ms@[b as int], ms@[k]) by {
                        assert(!placed_before[k]);
                    }
                    lemma_push_least(ms@, old_order, b);
                    assert forall|i: int| 0 <= i < n implies (placed@[i] <==> order@.contains(
                        i as usize,
                    )) by {
                        if i == b as int {
                            assert(order@[old_order.len() as int] == b);
                        } else if old_order.contains(i as usize) {
                            let q = old_order.index_of(i as usize);
                            assert(order@[q] == i as usize);
                        } else if order@.contains(i as usize) {
                            let q = order@.index_of(i as usize);
                            assert(q < old_order.len());
                            assert(old_order[q] == i as usize);
                        }
                    }
                    assert(order@.no_duplicates());
                }
            },
        }
    }
    proof {
        assert forall|p: int, q: int|
            0 <= p < order@.len() && 0 <= q < order@.len() && must_precede(
                ms@,
                #[trigger] order@[p] as int,
                #[trigger] order@[q] as int,
            ) implies p < q by {
            assert(ready(ms@, order@.take(q), order@[q] as int));
            assert(order@.take(q).contains(order@[p]));
            let r = order@.take(q).index_of(order@[p]);
            assert(order@[r] == order@[p]);
        }
        assert(valid_order(ms@, order@));
    }
    Ok(order)
}

/// In a valid order every migration comes after each migration it names as
/// a dependency and after every lower-numbered migration of its own app.
pub proof fn lemma_order_respects_dependencies(ms: Seq<Migration>, order: Seq<usize>, p: int, q: int)
    requires
        valid_order(ms, order),
        0 <= p < order.len(),
        0 <= q < order.len(),
        names_dependency(ms, order[p] as int, order[q] as int) || (ms[order[p] as int].app_name@
            == ms[order[q] as int].app_name@ && ms[order[p] as int].sequence_number
            < ms[order[q] as int].sequence_number),
    ensures
        p < q,
{
    reveal(must_precede);
    assert(must_precede(ms, order[p] as int, order[q] as int));
}

} // verus!
