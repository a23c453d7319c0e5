use vstd::prelude::*;
use vstd::relations::{sorted_by, total_ordering};
use crate::npu_core::{Core, CoreKind, CoreStatus, CoreType, CoreView, DeviceType};
use crate::text::{chars_equal, chars_of};
use crate::masking::views;

verus! {

/// Lexicographic order on sequences of integers, a proper prefix first.
pub open spec fn lex_lt(a: Seq<int>, b: Seq<int>) -> bool
    decreases a.len(),
{
    if a.len() == 0 {
        b.len() > 0
    } else if b.len() == 0 {
        false
    } else if a[0] != b[0] {
        a[0] < b[0]
    } else {
        lex_lt(a.drop_first(), b.drop_first())
    }
}

/// The code points of a text.
pub open spec fn char_codes(s: Seq<char>) -> Seq<int> {
    s.map_values(|c: char| c as int)
}

/// The values of a byte sequence.
pub open spec fn byte_codes(s: Seq<u8>) -> Seq<int> {
    s.map_values(|x: u8| x as int)
}

pub open spec fn device_type_rank(t: DeviceType) -> int {
    match t {
        DeviceType::Warboy => 0,
        DeviceType::Renegade => 1,
    }
}

pub open spec fn status_rank(s: CoreStatus) -> int {
    match s {
        CoreStatus::Available => 0,
        CoreStatus::Occupied => 1,
        CoreStatus::Occupied2 => 2,
    }
}

/// Order on core kinds: single cores by index, before fusions, which are
/// ordered lexicographically by their elements.
pub open spec fn kind_lt(a: CoreKind, b: CoreKind) -> bool {
    match (a, b) {
        (CoreKind::Single(x), CoreKind::Single(y)) => x < y,
        (CoreKind::Single(_), CoreKind::Fusion(_)) => true,
        (CoreKind::Fusion(_), CoreKind::Single(_)) => false,
        (CoreKind::Fusion(v), CoreKind::Fusion(w)) => lex_lt(byte_codes(v), byte_codes(w)),
    }
}

/// Strict order on cores: by device index, then path, core kind, device type
/// and status, each compared only where all earlier ones are equal.
pub open spec fn core_lt(a: CoreView, b: CoreView) -> bool {
    if a.device_idx != b.device_idx {
        a.device_idx < b.device_idx
    } else if a.path != b.path {
        lex_lt(char_codes(a.path), char_codes(b.path))
    } else if a.core_type != b.core_type {
        kind_lt(a.core_type, b.core_type)
    } else if a.device_type != b.device_type {
        device_type_rank(a.device_type) < device_type_rank(b.device_type)
    } else {
        status_rank(a.status) < status_rank(b.status)
    }
}

/// The order in which cores are listed.
pub open spec fn core_le(a: CoreView, b: CoreView) -> bool {
    a == b || core_lt(a, b)
}

/// `core_le` as a relation.
pub open spec fn core_order() -> spec_fn(CoreView, CoreView) -> bool {
    |a: CoreView, b: CoreView| core_le(a, b)
}

proof fn lemma_lex_irreflexive(a: Seq<int>)
    ensures
        !lex_lt(a, a),
    decreases a.len(),
{
    if a.len() > 0 {
        lemma_lex_irreflexive(a.drop_first());
    }
}

proof fn lemma_lex_asymmetric(a: Seq<int>, b: Seq<int>)
    ensures
        lex_lt(a, b) ==> !lex_lt(b, a),
    decreases a.len(),
{
    if a.len() > 0 && b.len() > 0 && a[0] == b[0] {
        lemma_lex_asymmetric(a.drop_first(), b.drop_first());
    }
}

proof fn lemma_lex_transitive(a: Seq<int>, b: Seq<int>, c: Seq<int>)
    requires
        lex_lt(a, b),
        lex_lt(b, c),
    ensures
        lex_lt(a, c),
    decreases a.len(),
{
    if a.len() > 0 && b.len() > 0 && c.len() > 0 && a[0] == b[0] && b[0] == c[0] {
        lemma_lex_transitive(a.drop_first(), b.drop_first(), c.drop_first());
    }
}

proof fn lemma_lex_total(a: Seq<int>, b: Seq<int>)
    ensures
        a == b || lex_lt(a, b) || lex_lt(b, a),
    decreases a.len(),
{
    if a.len() > 0 && b.len() > 0 && a[0] == b[0] {
        let ta = a.drop_first();
        let tb = b.drop_first();
        lemma_lex_total(ta, tb);
        if ta == tb {
            assert(a.len() == ta.len() + 1 && b.len() == tb.len() + 1);
            assert forall|i: int| 0 <= i < a.len() implies a[i] == b[i] by {
                if i > 0 {
                    assert(a[i] == ta[i - 1]);
                    assert(b[i] == tb[i - 1]);
                }
            }
            assert(a =~= b);
        }
    } else if a.len() == 0 && b.len() == 0 {
        assert(a =~= b);
    }
}

proof fn lemma_char_codes_injective(a: Seq<char>, b: Seq<char>)
    requires
        char_codes(a) == char_codes(b),
    ensures
        a == b,
{
    assert(a.len() == char_codes(a).len());
    assert forall|i: int| 0 <= i < a.len() implies a[i] == b[i] by {
        assert(char_codes(a)[i] == a[i] as int);
        assert(char_codes(b)[i] == b[i] as int);
    }
    assert(a =~= b);
}

proof fn lemma_byte_codes_injective(a: Seq<u8>, b: Seq<u8>)
    requires
        byte_codes(a) == byte_codes(b),
    ensures
        a == b,
{
    assert(a.len() == byte_codes(a).len());
    assert forall|i: int| 0 <= i < a.len() implies a[i] == b[i] by {
        assert(byte_codes(a)[i] == a[i] as int);
        assert(byte_codes(b)[i] == b[i] as int);
    }
    assert(a =~= b);
}

proof fn lemma_kind_lt(a: CoreKind, b: CoreKind, c: CoreKind)
    ensures
        !kind_lt(a, a),
        kind_lt(a, b) ==> !kind_lt(b, a),
        kind_lt(a, b) && kind_lt(b, c) ==> kind_lt(a, c),
        a == b || kind_lt(a, b) || kind_lt(b, a),
{
    if let CoreKind::Fusion(v) = a {
        lemma_lex_irreflexive(byte_codes(v));
        if let CoreKind::Fusion(w) = b {
            lemma_lex_asymmetric(byte_codes(v), byte_codes(w));
            lemma_lex_total(byte_codes(v), byte_codes(w));
            if byte_codes(v) == byte_codes(w) {
                lemma_byte_codes_injective(v, w);
            }
            if let CoreKind::Fusion(u) = c {
                if kind_lt(a, b) && kind_lt(b, c) {
                    lemma_lex_transitive(byte_codes(v), byte_codes(w), byte_codes(u));
                }
            }
        }
    }
}

proof fn lemma_path_lt(a: Seq<char>, b: Seq<char>, c: Seq<char>)
    ensures
        !lex_lt(char_codes(a), char_codes(a)),
        lex_lt(char_codes(a), char_codes(b)) ==> !lex_lt(char_codes(b), char_codes(a)),
        lex_lt(char_codes(a), char_codes(b)) && lex_lt(char_codes(b), char_codes(c)) ==> lex_lt(
            char_codes(a),
            char_codes(c),
        ),
        a == b || lex_lt(char_codes(a), char_codes(b)) || lex_lt(char_codes(b), char_codes(a)),
{
    lemma_lex_irreflexive(char_codes(a));
    lemma_lex_asymmetric(char_codes(a), char_codes(b));
    if lex_lt(char_codes(a), char_codes(b)) && lex_lt(char_codes(b), char_codes(c)) {
        lemma_lex_transitive(char_codes(a), char_codes(b), char_codes(c));
    }
    lemma_lex_total(char_codes(a), char_codes(b));
    if char_codes(a) == char_codes(b) {
        lemma_char_codes_injective(a, b);
    }
}

proof fn lemma_core_lt(a: CoreView, b: CoreView, c: CoreView)
    ensures
        !core_lt(a, a),
        core_lt(a, b) ==> !core_lt(b, a),
        core_lt(a, b) && core_lt(b, c) ==> core_lt(a, c),
        a == b || core_lt(a, b) || core_lt(b, a),
{
    lemma_path_lt(a.path, b.path, c.path);
    lemma_path_lt(a.path, c.path, b.path);
    lemma_path_lt(b.path, c.path, a.path);
    lemma_kind_lt(a.core_type, b.core_type, c.core_type);
    lemma_kind_lt(b.core_type, c.core_type, a.core_type);
    lemma_kind_lt(a.core_type, c.core_type, b.core_type);
    lemma_path_lt(b.path, a.path, c.path);
    lemma_kind_lt(b.core_type, a.core_type, c.core_type);
}

/// The listing order is a total order.
pub proof fn lemma_core_order_total()
    ensures
        total_ordering(core_order()),
{
    assert forall|a: CoreView, b: CoreView| #[trigger]
        core_order()(a, b) && #[trigger] core_order()(b, a) implies a == b by {
        lemma_core_lt(a, b, a);
    }
    assert forall|a: CoreView, b: CoreView, c: CoreView| #[trigger]
        core_order()(a, b) && #[trigger] core_order()(b, c) implies core_order()(a, c) by {
        lemma_core_lt(a, b, c);
    }
    assert forall|a: CoreView, b: CoreView| #[trigger]
        core_order()(a, b) || #[trigger] core_order()(b, a) by {
        lemma_core_lt(a, b, a);
    }
}


/// Whether text `a` comes strictly before text `b` by code points.
fn text_lt(a: &Vec<char>, b: &Vec<char>) -> (r: bool)
    ensures
        r == lex_lt(char_codes(a@), char_codes(b@)),
{
    let ghost ca = char_codes(a@);
    let ghost cb = char_codes(b@);
    let mut i: usize = 0;
    assert(ca.skip(0) == ca && cb.skip(0) == cb);
    while i < a.len() && i < b.len() && a[i] == b[i]
        invariant
            i <= a@.len(),
            i <= b@.len(),
            ca == char_codes(a@),
            cb == char_codes(b@),
            lex_lt(ca, cb) == lex_lt(ca.skip(i as int), cb.skip(i as int)),
        decreases a@.len() - i,
    {
        assert(ca.skip(i as int).drop_first() == ca.skip(i + 1));
        assert(cb.skip(i as int).drop_first() == cb.skip(i + 1));
        assert(ca.skip(i as int)[0] == cb.skip(i as int)[0]);
        i = i + 1;
    }
    if i == a.len() {
        i < b.len()
    } else if i == b.len() {
        false
    } else {
        assert(ca.skip(i as int)[0] == a@[i as int] as int);
        assert(cb.skip(i as int)[0] == b@[i as int] as int);
        a[i] < b[i]
    }
}

/// Whether byte sequence `a` comes strictly before `b`.
fn bytes_lt(a: &Vec<u8>, b: &Vec<u8>) -> (r: bool)
    ensures
        r == lex_lt(byte_codes(a@), byte_codes(b@)),
{
    let ghost ca = byte_codes(a@);
    let ghost cb = byte_codes(b@);
    let mut i: usize = 0;
    assert(ca.skip(0) == ca && cb.skip(0) == cb);
    while i < a.len() && i < b.len() && a[i] == b[i]
        invariant
            i <= a@.len(),
            i <= b@.len(),
            ca == byte_codes(a@),
            cb == byte_codes(b@),
            lex_lt(ca, cb) == lex_lt(ca.skip(i as int), cb.skip(i as int)),
        decreases a@.len() - i,
    {
        assert(ca.skip(i as int).drop_first() == ca.skip(i + 1));
        assert(cb.skip(i as int).drop_first() == cb.skip(i + 1));
        assert(ca.skip(i as int)[0] == cb.skip(i as int)[0]);
        i = i + 1;
    }
    if i == a.len() {
        i < b.len()
    } else if i == b.len() {
        false
    } else {
        assert(ca.skip(i as int)[0] == a@[i as int] as int);
        assert(cb.skip(i as int)[0] == b@[i as int] as int);
        a[i] < b[i]
    }
}

/// Whether two byte sequences are equal.
fn bytes_equal(a: &Vec<u8>, b: &Vec<u8>) -> (r: bool)
    ensures
        r == (a@ == b@),
{
    if a.len() != b.len() {
        return false;
    }
    let mut i: usize = 0;
    while i < a.len()
        invariant
            a@.len() == b@.len(),
            i <= a@.len(),
            forall|j: int| 0 <= j < i ==> a@[j] == b@[j],
        decreases a@.len() - i,
    {
        if a[i] != b[i] {
            return false;
        }
        i = i + 1;
    }
    assert(a@ == b@);
    true
}

fn device_type_rank_of(t: DeviceType) -> (r: u8)
    ensures
        r as int == device_type_rank(t),
{
    match t {
        DeviceType::Warboy => 0,
        DeviceType::Renegade => 1,
    }
}

fn status_rank_of(s: CoreStatus) -> (r: u8)
    ensures
        r as int == status_rank(s),
{
    match s {
        CoreStatus::Available => 0,
        CoreStatus::Occupied => 1,
        CoreStatus::Occupied2 => 2,
    }
}

/// Whether core `a` may be listed before core `b`.
pub fn core_precedes(a: &Core, b: &Core) -> (r: bool)
    ensures
        r == core_le(a@, b@),
{
    if a.device_idx() != b.device_idx() {
        return a.device_idx() < b.device_idx();
    }
    let pa = chars_of(a.path());
    let pb = chars_of(b.path());
    if !chars_equal(&pa, &pb) {
        return text_lt(&pa, &pb);
    }
    match (a.core_type(), b.core_type()) {
        (CoreType::Single(x), CoreType::Single(y)) => {
            if *x != *y {
                return *x < *y;
            }
        },
        (CoreType::Single(_), CoreType::Fusion(_)) => {
            return true;
        },
        (CoreType::Fusion(_), CoreType::Single(_)) => {
            return false;
        },
        (CoreType::Fusion(v), CoreType::Fusion(w)) => {
            if !bytes_equal(v, w) {
                return bytes_lt(v, w);
            }
        },
    }
    assert(a@.core_type == b@.core_type);
    let ta = device_type_rank_of(a.device_type());
    let tb = device_type_rank_of(b.device_type());
    if ta != tb {
        return ta < tb;
    }
    let sa = status_rank_of(a.status());
    let sb = status_rank_of(b.status());
    if sa != sb {
        return sa < sb;
    }
    assert(a@ == b@);
    true
}

proof fn lemma_lex_first_difference(a: Seq<int>, b: Seq<int>, k: int)
    requires
        0 <= k <= a.len(),
        k <= b.len(),
        a.take(k) == b.take(k),
        (k < a.len() && k < b.len() && a[k] < b[k]) || (k == a.len() && k < b.len()),
    ensures
        lex_lt(a, b),
    decreases k,
{
    if k > 0 {
        assert(a[0] == a.take(k)[0] && b[0] == b.take(k)[0]);
        assert(a.drop_first().take(k - 1) =~= a.take(k).drop_first());
        assert(b.drop_first().take(k - 1) =~= b.take(k).drop_first());
        lemma_lex_first_difference(a.drop_first(), b.drop_first(), k - 1);
    }
}

/// The listing order puts cores of a smaller device index first; within one
/// device, it compares paths character by character from the front: the path
/// with the smaller character at the first difference comes first, and a path
/// that is a proper prefix of another comes before it.
pub proof fn lemma_listing_order_device_then_path(a: CoreView, b: CoreView, k: int)
    ensures
        a.device_idx < b.device_idx ==> core_order()(a, b) && !core_order()(b, a),
        a.device_idx == b.device_idx && 0 <= k <= a.path.len() && k <= b.path.len() && a.path.take(k)
            == b.path.take(k) && ((k < a.path.len() && k < b.path.len() && (a.path[k] as int) < (
        b.path[k] as int)) || (k == a.path.len() && k < b.path.len())) ==> core_order()(a, b)
            && !core_order()(b, a),
{
    lemma_core_lt(a, b, a);
    if a.device_idx == b.device_idx && 0 <= k <= a.path.len() && k <= b.path.len() && a.path.take(k)
        == b.path.take(k) && ((k < a.path.len() && k < b.path.len() && (a.path[k] as int) < (
    b.path[k] as int)) || (k == a.path.len() && k < b.path.len())) {
        let ca = char_codes(a.path);
        let cb = char_codes(b.path);
        assert(ca.take(k) =~= cb.take(k)) by {
            assert forall|i: int| 0 <= i < k implies ca.take(k)[i] == cb.take(k)[i] by {
                assert(a.path.take(k)[i] == b.path.take(k)[i]);
            }
        }
        lemma_lex_first_difference(ca, cb, k);
        assert(a.path != b.path) by {
            if a.path == b.path {
                assert(a.path.len() == b.path.len());
            }
        }
        assert(a != b);
    }
}

/// The cores in listing order.
pub fn sort_cores(cores: Vec<Core>) -> (r: Vec<Core>)
    ensures
        views(r@) == views(cores@).sort_by(core_order()),
{
    let ghost orig = views(cores@);
    let ghost leq = core_order();
    proof {
        lemma_core_order_total();
    }
    let mut rest = cores;
    let mut out: Vec<Core> = Vec::new();
    assert(views(rest@) == orig);
    proof {
        assert(views(out@) =~= Seq::<CoreView>::empty());
        broadcast use vstd::multiset::group_multiset_axioms;
        broadcast use vstd::seq_lib::group_to_multiset_ensures;
        vstd::multiset::lemma_multiset_empty_len(views(out@).to_multiset());
        assert(views(out@).to_multiset() =~= vstd::multiset::Multiset::empty());
        assert(views(out@).to_multiset().add(orig.to_multiset()) =~= orig.to_multiset());
    }
    while rest.len() > 0
        invariant
            leq == core_order(),
            total_ordering(leq),
            sorted_by(views(out@), leq),
            views(out@).to_multiset().add(views(rest@).to_multiset()) == orig.to_multiset(),
        decreases rest@.len(),
    {
        let ghost rest_before = views(rest@);
        let c = rest.remove(0);
        proof {
            assert(views(rest@) =~= rest_before.drop_first());
            assert(rest_before =~= seq![c@] + rest_before.drop_first());
            vstd::seq_lib::lemma_multiset_commutative(seq![c@], rest_before.drop_first());
        }
        let mut j: usize = 0;
        while j < out.len() && core_precedes(&out[j], &c)
            invariant
                j <= out@.len(),
                forall|i: int| 0 <= i < j ==> core_le(#[trigger] views(out@)[i], c@),
            decreases out@.len() - j,
        {
            j = j + 1;
        }
        let ghost out_before = views(out@);
        out.insert(j, c);
        proof {
            assert(views(out@) =~= out_before.insert(j as int, c@));
            broadcast use vstd::seq_lib::group_to_multiset_ensures;
            assert(views(out@).to_multiset() =~= out_before.to_multiset().insert(c@));
            assert(seq![c@].to_multiset() =~= vstd::multiset::Multiset::empty().insert(c@)) by {
                broadcast use vstd::multiset::group_multiset_axioms;
                assert(seq![c@].drop_first() =~= Seq::<CoreView>::empty());
            }
            assert(views(out@).to_multiset().add(views(rest@).to_multiset()) =~= orig.to_multiset()) by {
                broadcast use vstd::multiset::group_multiset_axioms;
            }
            let o = views(out@);
            assert forall|p: int, q: int| 0 <= p < q < o.len() implies #[trigger] leq(o[p], o[q]) by {
                if j < out_before.len() {
                    assert(!core_le(out_before[j as int], c@));
                }
                if p < j && q == j {
                } else if p < j && q > j {
                    assert(leq(out_before[p], c@));
                    assert(!leq(out_before[j as int], c@));
                    assert(leq(c@, out_before[j as int]));
                    if q - 1 > j {
                        assert(leq(out_before[j as int], out_before[q - 1]));
                    }
                } else if p == j {
                    assert(!leq(out_before[j as int], c@));
                    assert(leq(c@, out_before[j as int]));
                    if q - 1 > j {
                        assert(leq(out_before[j as int], out_before[q - 1]));
                    }
                } else if q < j {
                    assert(leq(out_before[p], out_before[q]));
                } else {
                    assert(leq(out_before[p - 1], out_before[q - 1]));
                }
            }
        }
    }
    proof {
        assert(views(rest@) =~= Seq::<CoreView>::empty());
        assert(views(out@).to_multiset() =~= orig.to_multiset()) by {
            broadcast use vstd::multiset::group_multiset_axioms;
            broadcast use vstd::seq_lib::group_to_multiset_ensures;
        }
        orig.lemma_sort_by_ensures(leq);
        vstd::seq_lib::lemma_sorted_unique(views(out@), orig.sort_by(leq), leq);
    }
    out
}

/// The listing order of cores does not depend on the order they were found
/// in: two collections with the same cores are listed identically.
pub proof fn lemma_listing_order_independent(a: Seq<CoreView>, b: Seq<CoreView>)
    requires
        a.to_multiset() == b.to_multiset(),
    ensures
        a.sort_by(core_order()) == b.sort_by(core_order()),
{
    lemma_core_order_total();
    a.lemma_sort_by_ensures(core_order());
    b.lemma_sort_by_ensures(core_order());
    vstd::seq_lib::lemma_sorted_unique(a.sort_by(core_order()), b.sort_by(core_order()), core_order());
}

} // verus!
