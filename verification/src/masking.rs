use vstd::prelude::*;
use array_tool::vec::Intersect;
use crate::permutation::{lemma_map_values_multiset, lemma_same_elements};
use crate::npu_core::{
    indices_of, with_status_spec, Core, CoreStatus, CoreType, CoreView,
};

verus! {

/// The models of a sequence of cores.
pub open spec fn views(cores: Seq<Core>) -> Seq<CoreView> {
    cores.map_values(|c: Core| c@)
}

/// Whether core `c` is made of processing element `x`.
pub open spec fn holds_index(c: CoreView, x: u8) -> bool {
    indices_of(c.core_type).contains(x)
}

/// Whether some core in `cores` whose status is `Occupied` is made of element `x`.
pub open spec fn index_occupied(cores: Seq<CoreView>, x: u8) -> bool {
    exists|i: int|
        0 <= i < cores.len() && cores[i].status == CoreStatus::Occupied && #[trigger] holds_index(
            cores[i],
            x,
        )
}

/// Whether core `c` shares a processing element with an occupied core of `cores`.
pub open spec fn shares_occupied_index(cores: Seq<CoreView>, c: CoreView) -> bool {
    exists|x: u8| #[trigger] holds_index(c, x) && index_occupied(cores, x)
}

/// Core `c` of `cores` after masking: an available core that shares an element
/// with an occupied core becomes `Occupied2`; every other core stays as it is.
pub open spec fn masked(cores: Seq<CoreView>, c: CoreView) -> CoreView {
    if c.status == CoreStatus::Available && shares_occupied_index(cores, c) {
        with_status_spec(c, CoreStatus::Occupied2)
    } else {
        c
    }
}

/// All cores of `cores` after masking, in the same order.
pub open spec fn status_masked(cores: Seq<CoreView>) -> Seq<CoreView> {
    cores.map_values(|c: CoreView| masked(cores, c))
}

/// The first occurrence of each value of `s`, in the order of `s`.
pub open spec fn first_occurrences(s: Seq<u8>) -> Seq<u8>
    decreases s.len(),
{
    if s.len() == 0 {
        s
    } else {
        let p = first_occurrences(s.drop_last());
        if p.contains(s.last()) {
            p
        } else {
            p.push(s.last())
        }
    }
}

/// Calls `array_tool::vec::Intersect::intersect`, which keeps the first
/// occurrence of each value of `a` that also occurs in `b`, in the order of `a`.
#[verifier::external_body]
fn intersect_indices(a: &Vec<u8>, b: Vec<u8>) -> (r: Vec<u8>)
    ensures
        r@ == first_occurrences(a@).filter(|x: u8| b@.contains(x)),
{
    a.intersect(b)
}

/// The first occurrences of the values of `s` are exactly the values of `s`.
proof fn lemma_first_occurrences_contains(s: Seq<u8>, x: u8)
    ensures
        first_occurrences(s).contains(x) <==> s.contains(x),
    decreases s.len(),
{
    if s.len() > 0 {
        let d = s.drop_last();
        let p = first_occurrences(d);
        lemma_first_occurrences_contains(d, x);
        assert(s == d + seq![s.last()]);
        assert(p.push(s.last()) == p + seq![s.last()]);
        lemma_concat_contains(d, seq![s.last()], x);
        lemma_concat_contains(p, seq![s.last()], x);
        assert(seq![s.last()].contains(x) <==> x == s.last()) by {
            if x == s.last() {
                assert(seq![s.last()][0] == x);
            }
        }
    }
}

/// Whether `v` holds `x`.
fn contains_index(v: &Vec<u8>, x: u8) -> (r: bool)
    ensures
        r == v@.contains(x),
{
    let mut i: usize = 0;
    while i < v.len()
        invariant
            i <= v@.len(),
            forall|j: int| 0 <= j < i ==> v@[j] != x,
        decreases v@.len() - i,
    {
        if v[i] == x {
            assert(v@[i as int] == x);
            return true;
        }
        i = i + 1;
    }
    false
}

/// Whether `a` and `b` have a value in common.
fn shares_an_index(a: &Vec<u8>, b: &Vec<u8>) -> (r: bool)
    ensures
        r == exists|x: u8| a@.contains(x) && b@.contains(x),
{
    let mut i: usize = 0;
    while i < b.len()
        invariant
            i <= b@.len(),
            forall|j: int| 0 <= j < i ==> !a@.contains(#[trigger] b@[j]),
        decreases b@.len() - i,
    {
        if contains_index(a, b[i]) {
            assert(b@.contains(b@[i as int]));
            return true;
        }
        i = i + 1;
    }
    assert forall|x: u8| !(a@.contains(x) && b@.contains(x)) by {
        if b@.contains(x) {
            let j = choose|j: int| 0 <= j < b@.len() && b@[j] == x;
            assert(!a@.contains(b@[j]));
        }
    }
    false
}

/// A copy of `v`.
fn copy_indices(v: &Vec<u8>) -> (r: Vec<u8>)
    ensures
        r@ == v@,
{
    let mut r: Vec<u8> = Vec::new();
    let mut i: usize = 0;
    while i < v.len()
        invariant
            i <= v@.len(),
            r@ == v@.take(i as int),
        decreases v@.len() - i,
    {
        r.push(v[i]);
        i = i + 1;
        assert(r@ == v@.take(i as int));
    }
    assert(v@.take(v@.len() as int) == v@);
    r
}

proof fn lemma_concat_contains(a: Seq<u8>, b: Seq<u8>, x: u8)
    ensures
        (a + b).contains(x) <==> (a.contains(x) || b.contains(x)),
{
    if (a + b).contains(x) {
        let i = choose|i: int| 0 <= i < (a + b).len() && (a + b)[i] == x;
        if i >= a.len() {
            assert(b[i - a.len()] == x);
        }
    }
    if a.contains(x) {
        let i = choose|i: int| 0 <= i < a.len() && a[i] == x;
        assert((a + b)[i] == x);
    }
    if b.contains(x) {
        let i = choose|i: int| 0 <= i < b.len() && b[i] == x;
        assert((a + b)[a.len() + i] == x);
    }
}

/// Appends to `out` the processing elements that `t` is made of.
fn push_indices_of(out: &mut Vec<u8>, t: &CoreType)
    ensures
        final(out)@ == old(out)@ + indices_of(t@),
{
    match t {
        CoreType::Single(idx) => {
            out.push(*idx);
            assert(out@ =~= old(out)@ + seq![*idx]);
        },
        CoreType::Fusion(v) => {
            let ghost before = out@;
            let mut j: usize = 0;
            while j < v.len()
                invariant
                    j <= v@.len(),
                    out@ == before + v@.take(j as int),
                decreases v@.len() - j,
            {
                out.push(v[j]);
                assert(out@ =~= before + v@.take(j + 1));
                j = j + 1;
            }
            assert(v@.take(v@.len() as int) == v@);
        },
    }
}

proof fn lemma_occupied_step(s: Seq<CoreView>, i: int, x: u8)
    requires
        0 <= i < s.len(),
    ensures
        index_occupied(s.take(i + 1), x) <==> (index_occupied(s.take(i), x) || (s[i].status
            == CoreStatus::Occupied && holds_index(s[i], x))),
{
    let a = s.take(i);
    let b = s.take(i + 1);
    if index_occupied(b, x) {
        let j = choose|j: int|
            0 <= j < b.len() && b[j].status == CoreStatus::Occupied && #[trigger] holds_index(b[j], x);
        if j < i {
            assert(a[j] == b[j]);
        }
    }
    if index_occupied(a, x) {
        let j = choose|j: int|
            0 <= j < a.len() && a[j].status == CoreStatus::Occupied && #[trigger] holds_index(a[j], x);
        assert(a[j] == b[j]);
    }
    if s[i].status == CoreStatus::Occupied && holds_index(s[i], x) {
        assert(b[i] == s[i]);
    }
}

/// Marks as `Occupied2` every available core that shares a processing element
/// with an occupied core; the cores keep their order. For a fusion, an
/// element that `array_tool`'s intersection names is checked against both
/// lists before it is taken as shared, and where none is confirmed the lists
/// are searched for a common element.
pub fn core_status_masking(cores: Vec<Core>) -> (r: Vec<Core>)
    ensures
        views(r@) == status_masked(views(cores@)),
{
    let ghost orig = views(cores@);
    let mut occupied: Vec<u8> = Vec::new();
    let mut i: usize = 0;
    while i < cores.len()
        invariant
            orig == views(cores@),
            i <= cores@.len(),
            forall|x: u8| occupied@.contains(x) <==> index_occupied(orig.take(i as int), x),
        decreases cores@.len() - i,
    {
        let ghost prev = occupied@;
        if cores[i].status() == CoreStatus::Occupied {
            push_indices_of(&mut occupied, cores[i].core_type());
        }
        proof {
            assert(orig[i as int] == cores@[i as int]@);
            assert forall|x: u8|
                occupied@.contains(x) <==> index_occupied(orig.take(i + 1), x) by {
                lemma_occupied_step(orig, i as int, x);
                lemma_concat_contains(prev, indices_of(orig[i as int].core_type), x);
            }
        }
        i = i + 1;
    }
    assert(orig.take(cores@.len() as int) == orig);

    let ghost target = status_masked(orig);
    let mut rest = cores;
    let mut out: Vec<Core> = Vec::new();
    while rest.len() > 0
        invariant
            out@.len() + rest@.len() == orig.len(),
            target == status_masked(orig),
            forall|j: int| 0 <= j < rest@.len() ==> #[trigger] rest@[j]@ == orig[out@.len() + j],
            forall|j: int| 0 <= j < out@.len() ==> #[trigger] out@[j]@ == target[j],
            forall|x: u8| occupied@.contains(x) <==> index_occupied(orig, x),
        decreases rest@.len(),
    {
        let ghost k = out@.len() as int;
        let ghost rest_before = rest@;
        let c = rest.remove(0);
        assert(c@ == orig[k]);
        let hit = if c.status() == CoreStatus::Available {
            match c.core_type() {
                CoreType::Single(idx) => {
                    let found = contains_index(&occupied, *idx);
                    proof {
                        assert(indices_of(c@.core_type) == seq![*idx]);
                        assert(seq![*idx][0] == *idx);
                        assert(holds_index(c@, *idx));
                        assert forall|x: u8| #[trigger] holds_index(c@, x) implies x == *idx by {
                            assert(indices_of(c@.core_type) == seq![*idx]);
                        }
                    }
                    found
                },
                CoreType::Fusion(v) => {
                    let common = intersect_indices(&occupied, copy_indices(v));
                    let confirmed = common.len() > 0 && contains_index(&occupied, common[0])
                        && contains_index(v, common[0]);
                    let shared = if confirmed {
                        true
                    } else {
                        shares_an_index(&occupied, v)
                    };
                    proof {
                        assert(indices_of(c@.core_type) == v@);
                        if confirmed {
                            let y = common@[0];
                            assert(holds_index(c@, y));
                            assert(index_occupied(orig, y));
                        } else {
                            if shared {
                                let x = choose|x: u8| occupied@.contains(x) && v@.contains(x);
                                assert(holds_index(c@, x));
                            }
                            if shares_occupied_index(orig, c@) {
                                let x = choose|x: u8| #[trigger] holds_index(c@, x) && index_occupied(orig, x);
                                assert(occupied@.contains(x) && v@.contains(x));
                            }
                        }
                    }
                    shared
                },
            }
        } else {
            false
        };
        assert(hit == (c@.status == CoreStatus::Available && shares_occupied_index(orig, c@)));
        let next = if hit {
            c.with_status(CoreStatus::Occupied2)
        } else {
            c
        };
        assert(next@ == target[k]);
        out.push(next);
        proof {
            assert forall|j: int| 0 <= j < rest@.len() implies #[trigger] rest@[j]@ == orig[out@.len() + j] by {
                assert(rest@[j] == rest_before[j + 1]);
            }
        }
    }
    assert(views(out@) == target);
    out
}

/// Masking neither creates nor removes occupied cores, nor changes what
/// cores are made of, so the occupied processing elements stay the same.
pub proof fn lemma_masking_keeps_occupied(cores: Seq<CoreView>, x: u8)
    ensures
        index_occupied(status_masked(cores), x) <==> index_occupied(cores, x),
{
    let m = status_masked(cores);
    if index_occupied(m, x) {
        let i = choose|i: int|
            0 <= i < m.len() && m[i].status == CoreStatus::Occupied && #[trigger] holds_index(m[i], x);
        assert(holds_index(cores[i], x));
    }
    if index_occupied(cores, x) {
        let i = choose|i: int|
            0 <= i < cores.len() && cores[i].status == CoreStatus::Occupied && #[trigger] holds_index(cores[i], x);
        assert(holds_index(m[i], x));
    }
}

/// Masking only ever turns an available core into `Occupied2`: it keeps the
/// number and order of the cores and every other part of each core.
pub proof fn lemma_masking_only_marks(cores: Seq<CoreView>)
    ensures
        status_masked(cores).len() == cores.len(),
        forall|i: int|
            0 <= i < cores.len() ==> {
                let before = #[trigger] cores[i];
                let after = status_masked(cores)[i];
                &&& after.device_idx == before.device_idx
                &&& after.path == before.path
                &&& after.core_type == before.core_type
                &&& after.device_type == before.device_type
                &&& (after.status == before.status || (before.status == CoreStatus::Available
                    && after.status == CoreStatus::Occupied2))
            },
{
}

/// After masking, no available core shares a processing element with an
/// occupied core.
pub proof fn lemma_masked_available_is_free(cores: Seq<CoreView>)
    ensures
        forall|i: int|
            0 <= i < status_masked(cores).len() && (#[trigger] status_masked(cores)[i]).status
                == CoreStatus::Available ==> !shares_occupied_index(
                status_masked(cores),
                status_masked(cores)[i],
            ),
{
    let m = status_masked(cores);
    assert forall|i: int|
        0 <= i < m.len() && (#[trigger] m[i]).status == CoreStatus::Available implies !shares_occupied_index(m, m[i]) by {
        assert(m[i] == cores[i]);
        if shares_occupied_index(m, m[i]) {
            let x = choose|x: u8| #[trigger] holds_index(m[i], x) && index_occupied(m, x);
            lemma_masking_keeps_occupied(cores, x);
        }
    }
}

/// Masking twice gives what masking once gives.
pub proof fn lemma_masking_idempotent(cores: Seq<CoreView>)
    ensures
        status_masked(status_masked(cores)) == status_masked(cores),
{
    let m = status_masked(cores);
    assert forall|i: int| 0 <= i < m.len() implies #[trigger] masked(m, m[i]) == m[i] by {
        let c = cores[i];
        if c.status == CoreStatus::Available && !shares_occupied_index(cores, c) {
            assert(m[i] == c);
            if shares_occupied_index(m, c) {
                let x = choose|x: u8| #[trigger] holds_index(c, x) && index_occupied(m, x);
                lemma_masking_keeps_occupied(cores, x);
            }
        }
    }
    assert(status_masked(m) =~= m);
}


/// Whether some position of `perm` holds `j`.
pub open spec fn hits(perm: Seq<int>, j: int) -> bool {
    exists|i: int| 0 <= i < perm.len() && #[trigger] perm[i] == j
}

/// Masking commutes with reordering: masking the cores in another order
/// gives the masked cores in that other order. `perm` sends each position of
/// `b` to the position of `a` that holds the same core, and hits every
/// position of `a`.
pub proof fn lemma_masking_commutes_with_reordering(
    a: Seq<CoreView>,
    b: Seq<CoreView>,
    perm: Seq<int>,
)
    requires
        b.len() == a.len(),
        perm.len() == b.len(),
        forall|i: int| 0 <= i < b.len() ==> 0 <= #[trigger] perm[i] < a.len() && b[i] == a[perm[i]],
        forall|j: int| 0 <= j < a.len() ==> #[trigger] hits(perm, j),
    ensures
        forall|i: int| 0 <= i < b.len() ==> #[trigger] status_masked(b)[i] == status_masked(a)[perm[i]],
{
    assert forall|x: u8| index_occupied(a, x) <==> index_occupied(b, x) by {
        if index_occupied(a, x) {
            let j = choose|j: int|
                0 <= j < a.len() && a[j].status == CoreStatus::Occupied && #[trigger] holds_index(a[j], x);
            assert(hits(perm, j));
            let i = choose|i: int| 0 <= i < perm.len() && #[trigger] perm[i] == j;
            assert(b[i] == a[j]);
            assert(holds_index(b[i], x));
        }
        if index_occupied(b, x) {
            let i = choose|i: int|
                0 <= i < b.len() && b[i].status == CoreStatus::Occupied && #[trigger] holds_index(b[i], x);
            assert(b[i] == a[perm[i]]);
            assert(holds_index(a[perm[i]], x));
        }
    }
    assert forall|i: int| 0 <= i < b.len() implies #[trigger] status_masked(b)[i] == status_masked(a)[perm[i]] by {
        let c = b[i];
        assert(c == a[perm[i]]);
        if shares_occupied_index(a, c) {
            let x = choose|x: u8| #[trigger] holds_index(c, x) && index_occupied(a, x);
            assert(index_occupied(b, x));
        }
        if shares_occupied_index(b, c) {
            let x = choose|x: u8| #[trigger] holds_index(c, x) && index_occupied(b, x);
            assert(index_occupied(a, x));
        }
    }
}

/// Masking two collections that hold the same cores, in whatever order,
/// gives two collections that hold the same masked cores.
pub proof fn lemma_masking_same_cores(a: Seq<CoreView>, b: Seq<CoreView>)
    requires
        a.to_multiset() == b.to_multiset(),
    ensures
        status_masked(a).to_multiset() == status_masked(b).to_multiset(),
{
    assert forall|x: u8| index_occupied(a, x) <==> index_occupied(b, x) by {
        if index_occupied(a, x) {
            let j = choose|j: int|
                0 <= j < a.len() && a[j].status == CoreStatus::Occupied && #[trigger] holds_index(a[j], x);
            assert(a.contains(a[j]));
            lemma_same_elements(a, b, a[j]);
            let i = choose|i: int| 0 <= i < b.len() && b[i] == a[j];
            assert(holds_index(b[i], x));
        }
        if index_occupied(b, x) {
            let i = choose|i: int|
                0 <= i < b.len() && b[i].status == CoreStatus::Occupied && #[trigger] holds_index(b[i], x);
            assert(b.contains(b[i]));
            lemma_same_elements(a, b, b[i]);
            let j = choose|j: int| 0 <= j < a.len() && a[j] == b[i];
            assert(holds_index(a[j], x));
        }
    }
    let f = |c: CoreView| masked(a, c);
    assert forall|c: CoreView| masked(a, c) == masked(b, c) by {
        if shares_occupied_index(a, c) {
            let x = choose|x: u8| #[trigger] holds_index(c, x) && index_occupied(a, x);
            assert(index_occupied(b, x));
        }
        if shares_occupied_index(b, c) {
            let x = choose|x: u8| #[trigger] holds_index(c, x) && index_occupied(b, x);
            assert(index_occupied(a, x));
        }
    }
    assert(status_masked(a) =~= a.map_values(f));
    assert(status_masked(b) =~= b.map_values(f));
    lemma_map_values_multiset(f, a, b);
}


/// An available core whose processing elements include any element of an
/// occupied core, wherever that element stands in either core, is marked
/// `Occupied2` by masking.
pub proof fn lemma_masking_marks_any_shared_element(cores: Seq<CoreView>, i: int, j: int, x: u8)
    requires
        0 <= i < cores.len(),
        0 <= j < cores.len(),
        cores[i].status == CoreStatus::Available,
        cores[j].status == CoreStatus::Occupied,
        indices_of(cores[i].core_type).contains(x),
        indices_of(cores[j].core_type).contains(x),
    ensures
        status_masked(cores)[i].status == CoreStatus::Occupied2,
{
    assert(holds_index(cores[j], x));
    assert(index_occupied(cores, x));
    assert(holds_index(cores[i], x));
}

/// An available core that shares no processing element with any occupied
/// core stays as it is under masking.
pub proof fn lemma_masking_keeps_free_core(cores: Seq<CoreView>, i: int)
    requires
        0 <= i < cores.len(),
        cores[i].status == CoreStatus::Available,
        forall|j: int, x: u8|
            0 <= j < cores.len() && cores[j].status == CoreStatus::Occupied && indices_of(
                cores[j].core_type,
            ).contains(x) ==> !indices_of(cores[i].core_type).contains(x),
    ensures
        status_masked(cores)[i] == cores[i],
{
    if shares_occupied_index(cores, cores[i]) {
        let x = choose|x: u8| #[trigger] holds_index(cores[i], x) && index_occupied(cores, x);
        let j = choose|j: int|
            0 <= j < cores.len() && cores[j].status == CoreStatus::Occupied && #[trigger] holds_index(cores[j], x);
    }
}

} // verus!
