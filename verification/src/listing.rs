use vstd::prelude::*;
use crate::device_map::{
    file_views, is_device_map, is_file_name_of, mentions_device, of_device, DeviceFile,
    DeviceFileView, DeviceFiles,
};
use crate::masking::{
    core_status_masking, holds_index, index_occupied, lemma_masked_available_is_free,
    lemma_masking_only_marks, lemma_masking_same_cores, masked, shares_occupied_index, status_masked,
    views,
};
use crate::npu_core::{
    core_kind_of_name, core_name, device_type_of_text, indices_of, indices_text, kind_of_indices,
    push_decimal, Core, CoreStatus, CoreType, CoreView, DeviceType,
};
use crate::order::{core_order, lemma_core_order_total, lemma_listing_order_independent, sort_cores};
use crate::permutation::{
    lemma_filter_map_multiset, lemma_filter_multiset, lemma_map_values_multiset, lemma_same_elements,
};
use crate::names::{
    after_pe, device_digits, device_file_name, lemma_decimal, lemma_digit_run_concat,
    lemma_index_list_roundtrip, lemma_indices_text_chars, DeviceFileName,
};
use crate::text::{chars_equal, chars_of, decimal, trim, trim_chars};

verus! {

/// Whether the text of a sysfs `platform_type` file names a FuriosaAI device.
pub open spec fn is_furiosa_text(text: Seq<char>) -> bool {
    trim(text) == "FuriosaAI"@
}

/// Decides from the text of the device's sysfs `platform_type` file, if it
/// could be read, whether the device is a FuriosaAI NPU.
pub fn is_furiosa_device(platform_type: Option<String>) -> (r: bool)
    ensures
        r == match platform_type {
            Some(t) => is_furiosa_text(t@),
            None => false,
        },
{
    match platform_type {
        Some(t) => {
            let trimmed = trim_chars(&chars_of(t.as_str()));
            chars_equal(&trimmed, &chars_of("FuriosaAI"))
        },
        None => false,
    }
}

/// Decides from the text of the device's sysfs `device_type` file, if it
/// could be read, which kind of NPU the device is.
pub fn identify_device_type(device_type: Option<String>) -> (r: Option<DeviceType>)
    ensures
        r == match device_type {
            Some(t) => device_type_of_text(t@),
            None => None::<DeviceType>,
        },
{
    match device_type {
        Some(t) => match DeviceType::try_from(t.as_str()) {
            Ok(d) => Some(d),
            Err(_) => None,
        },
        None => None,
    }
}

/// The core that a device file stands for, if its name names one.
pub open spec fn core_of_file(
    device_idx: u8,
    file: DeviceFileView,
    device_type: DeviceType,
    status: CoreStatus,
) -> Option<CoreView> {
    match core_kind_of_name(file.name) {
        Some(k) => Some(
            CoreView { device_idx, path: file.path, core_type: k, device_type, status },
        ),
        None => None,
    }
}

/// The core that a device file stands for, given the status read from it.
pub fn get_core(device_idx: u8, file: DeviceFile, device_type: DeviceType, status: CoreStatus) -> (r:
    Option<Core>)
    requires
        is_file_name_of(file@.name, file@.path),
    ensures
        match core_of_file(device_idx, file@, device_type, status) {
            Some(v) => r matches Some(c) && c@ == v,
            None => r is None,
        },
{
    match CoreType::try_from(file.name.as_str()) {
        Ok(core_type) => Some(Core::new(device_idx, file.path, core_type, device_type, status)),
        Err(_) => None,
    }
}

/// Whether the name of each probed file is the last component of its path.
pub open spec fn all_named_by_path(probes: Seq<(DeviceFile, CoreStatus)>) -> bool {
    forall|i: int| 0 <= i < probes.len() ==> is_file_name_of(#[trigger] probes[i].0@.name, probes[i].0@.path)
}

/// Decides a core's status from whether its device file could be opened for
/// reading and writing: a file that cannot be opened is held by someone.
pub fn core_status_of_open(opened: bool) -> (r: CoreStatus)
    ensures
        r == (if opened {
            CoreStatus::Available
        } else {
            CoreStatus::Occupied
        }),
{
    if opened {
        CoreStatus::Available
    } else {
        CoreStatus::Occupied
    }
}

/// The models of device files paired with the status read from each.
pub open spec fn probe_views(probes: Seq<(DeviceFile, CoreStatus)>) -> Seq<(DeviceFileView, CoreStatus)> {
    probes.map_values(|p: (DeviceFile, CoreStatus)| (p.0@, p.1))
}

/// `core_of_file` for the files of one device.
pub open spec fn core_of_probe(device_idx: u8, device_type: DeviceType) -> spec_fn(
    (DeviceFileView, CoreStatus),
) -> Option<CoreView> {
    |p: (DeviceFileView, CoreStatus)| core_of_file(device_idx, p.0, device_type, p.1)
}

/// The cores of one device, before masking.
pub open spec fn found_cores(
    device_idx: u8,
    device_type: DeviceType,
    probes: Seq<(DeviceFileView, CoreStatus)>,
) -> Seq<CoreView> {
    probes.filter_map(core_of_probe(device_idx, device_type))
}

/// The cores of one device: the device files whose names name a core, in
/// order, with their statuses masked.
pub fn collect_cores(
    device_idx: u8,
    device_type: DeviceType,
    probes: Vec<(DeviceFile, CoreStatus)>,
) -> (r: Vec<Core>)
    requires
        all_named_by_path(probes@),
    ensures
        views(r@) == status_masked(found_cores(device_idx, device_type, probe_views(probes@))),
{
    let ghost all = probe_views(probes@);
    let ghost f = core_of_probe(device_idx, device_type);
    let mut rest = probes;
    let mut found: Vec<Core> = Vec::new();
    let ghost mut n: int = 0;
    assert(all.take(0).filter_map(f) =~= Seq::<CoreView>::empty());
    while rest.len() > 0
        invariant
            all == probe_views(probes@),
            f == core_of_probe(device_idx, device_type),
            0 <= n <= all.len(),
            n + rest@.len() == all.len(),
            forall|j: int| 0 <= j < rest@.len() ==> (#[trigger] rest@[j]).0@ == all[n + j].0 && rest@[j].1 == all[n + j].1,
            all_named_by_path(rest@),
            views(found@) == all.take(n).filter_map(f),
        decreases rest@.len(),
    {
        let ghost rest_before = rest@;
        assert(is_file_name_of(rest_before[0].0@.name, rest_before[0].0@.path));
        let (file, status) = rest.remove(0);
        proof {
            assert(all.take(n + 1).drop_last() == all.take(n));
            assert(all.take(n + 1).last() == all[n]);
            assert(all[n] == (file@, status));
            assert forall|j: int| 0 <= j < rest@.len() implies (#[trigger] rest@[j]).0@ == all[n + 1 + j].0 && rest@[j].1 == all[n + 1 + j].1 by {
                assert(rest@[j] == rest_before[j + 1]);
            }
            assert forall|j: int| 0 <= j < rest@.len() implies is_file_name_of(#[trigger] rest@[j].0@.name, rest@[j].0@.path) by {
                assert(rest@[j] == rest_before[j + 1]);
            }
        }
        let ghost found_before = views(found@);
        match get_core(device_idx, file, device_type, status) {
            Some(c) => {
                found.push(c);
                assert(views(found@) =~= found_before + seq![c@]);
            },
            None => {},
        }
        proof {
            n = n + 1;
        }
    }
    assert(all.take(n) == all);
    core_status_masking(found)
}

/// The cores of a sequence of groups, group after group.
pub open spec fn concat_views(groups: Seq<Vec<Core>>) -> Seq<CoreView>
    decreases groups.len(),
{
    if groups.len() == 0 {
        Seq::empty()
    } else {
        views(groups[0]@) + concat_views(groups.drop_first())
    }
}

/// The cores of all devices, in listing order.
pub fn list_cores(groups: Vec<Vec<Core>>) -> (r: Vec<Core>)
    ensures
        views(r@) == concat_views(groups@).sort_by(core_order()),
{
    let ghost whole = concat_views(groups@);
    let mut rest = groups;
    let mut all: Vec<Core> = Vec::new();
    assert(views(all@) + concat_views(rest@) =~= whole);
    while rest.len() > 0
        invariant
            views(all@) + concat_views(rest@) == whole,
        decreases rest@.len(),
    {
        let ghost rest_before = rest@;
        let mut g = rest.remove(0);
        let ghost all_before = views(all@);
        let ghost g_view = views(g@);
        all.append(&mut g);
        proof {
            assert(rest@ =~= rest_before.drop_first());
            assert(views(all@) =~= all_before + g_view);
            assert(concat_views(rest_before) == g_view + concat_views(rest@));
            assert(views(all@) + concat_views(rest@) =~= all_before + concat_views(rest_before));
        }
    }
    assert(views(all@) =~= whole);
    sort_cores(all)
}

/// The path of a file in the sysfs management directory of device `idx`.
pub open spec fn mgmt_file_path(sysfs: Seq<char>, idx: u8, file: Seq<char>) -> Seq<char> {
    sysfs + "/class/npu_mgmt/npu"@ + decimal(idx as nat) + "_mgmt/"@ + file
}

fn mgmt_path(sysfs: &str, idx: u8, file: &str) -> (r: String)
    ensures
        r@ == mgmt_file_path(sysfs@, idx, file@),
{
    let mut out = String::from_str(sysfs);
    out.append("/class/npu_mgmt/npu");
    push_decimal(&mut out, idx);
    out.append("_mgmt/");
    out.append(file);
    out
}

/// Where sysfs tells the platform of device `idx`.
pub fn platform_type_path(sysfs: &str, idx: u8) -> (r: String)
    ensures
        r@ == mgmt_file_path(sysfs@, idx, "platform_type"@),
{
    mgmt_path(sysfs, idx, "platform_type")
}

/// Where sysfs tells the device type of device `idx`.
pub fn device_type_path(sysfs: &str, idx: u8) -> (r: String)
    ensures
        r@ == mgmt_file_path(sysfs@, idx, "device_type"@),
{
    mgmt_path(sysfs, idx, "device_type")
}


/// The canonical device file name of a core: "npu", the device index, "pe",
/// the core's processing elements joined by '-'.
pub open spec fn canonical_file_name(device_idx: u8, v: Seq<u8>) -> Seq<char> {
    seq!['n', 'p', 'u'] + decimal(device_idx as nat) + seq!['p', 'e'] + indices_text(v)
}

/// A device file with a canonical name belongs to the device its name gives,
/// stands for the core made of the elements its name gives, and that core's
/// name is the file name with ':' in place of "pe".
pub proof fn lemma_canonical_file(
    device_idx: u8,
    v: Seq<u8>,
    path: Seq<char>,
    device_type: DeviceType,
    status: CoreStatus,
)
    requires
        v.len() > 0,
    ensures
        device_file_name(canonical_file_name(device_idx, v)) == DeviceFileName::Device(
            device_idx,
        ),
        core_of_file(
            device_idx,
            DeviceFileView { name: canonical_file_name(device_idx, v), path },
            device_type,
            status,
        ) == Some(
            CoreView {
                device_idx,
                path,
                core_type: kind_of_indices(v),
                device_type,
                status,
            },
        ),
        core_name(
            CoreView { device_idx, path, core_type: kind_of_indices(v), device_type, status },
        ) == seq!['n', 'p', 'u'] + decimal(device_idx as nat) + seq![':'] + indices_text(v),
{
    let name = canonical_file_name(device_idx, v);
    let d = decimal(device_idx as nat);
    let t = indices_text(v);
    lemma_decimal(device_idx as nat);
    lemma_index_list_roundtrip(v);
    lemma_indices_text_chars(v);
    let after = seq!['p', 'e'] + t;
    assert(name.skip(3) =~= d + after);
    assert(after[0] == 'p');
    lemma_digit_run_concat(d, after);
    let k = d.len() as int;
    assert(name[0] == 'n' && name[1] == 'p' && name[2] == 'u');
    assert(name[3 + k] == 'p' && name[3 + k + 1] == 'e');
    assert(after_pe(name) == Some(3 + k + 2));
    assert(name.skip(3 + k + 2) =~= t);
    assert(device_digits(name) =~= d);
    assert forall|j: int| 3 + k + 2 <= j < name.len() implies name[j] != '\n' by {
        assert(name[j] == t[j - (3 + k + 2)]);
    }
    assert(indices_of(kind_of_indices(v)) == v) by {
        if v.len() == 1 {
            assert(v =~= seq![v[0]]);
        }
    }
}


/// The text of a file, if it could be read.
pub open spec fn text_of(o: Option<String>) -> Option<Seq<char>> {
    match o {
        Some(s) => Some(s@),
        None => None,
    }
}

/// The device type under which a device is listed: only a FuriosaAI device
/// whose device type is known is listed.
pub open spec fn listed_device_type(
    platform_type: Option<Seq<char>>,
    device_type: Option<Seq<char>>,
) -> Option<DeviceType> {
    match platform_type {
        Some(p) => if is_furiosa_text(p) {
            match device_type {
                Some(t) => device_type_of_text(t),
                None => None,
            }
        } else {
            None
        },
        None => None,
    }
}

/// Decides from the texts of a device's sysfs `platform_type` and
/// `device_type` files, where they could be read, whether the device is
/// listed and as which device type.
pub fn device_type_to_list(platform_type: Option<String>, device_type: Option<String>) -> (r:
    Option<DeviceType>)
    ensures
        r == listed_device_type(text_of(platform_type), text_of(device_type)),
{
    if is_furiosa_device(platform_type) {
        identify_device_type(device_type)
    } else {
        None
    }
}

/// A device file paired with the status read from it.
pub open spec fn probe_with(status: spec_fn(Seq<char>) -> CoreStatus) -> spec_fn(DeviceFileView) -> (
    DeviceFileView,
    CoreStatus,
) {
    |f: DeviceFileView| (f, status(f.path))
}

/// The cores that a group of device files contributes to the listing, where
/// `platform_type`, `device_type` and `status` give what sysfs and the
/// device files say.
pub open spec fn group_listing(
    group: DeviceFiles,
    platform_type: spec_fn(u8) -> Option<Seq<char>>,
    device_type: spec_fn(u8) -> Option<Seq<char>>,
    status: spec_fn(Seq<char>) -> CoreStatus,
) -> Seq<CoreView> {
    match listed_device_type(platform_type(group.idx), device_type(group.idx)) {
        Some(t) => status_masked(
            found_cores(group.idx, t, file_views(group.files@).map_values(probe_with(status))),
        ),
        None => Seq::empty(),
    }
}

/// The cores of all groups of a device map, group after group, before sorting.
pub open spec fn machine_listing(
    groups: Seq<DeviceFiles>,
    platform_type: spec_fn(u8) -> Option<Seq<char>>,
    device_type: spec_fn(u8) -> Option<Seq<char>>,
    status: spec_fn(Seq<char>) -> CoreStatus,
) -> Seq<CoreView>
    decreases groups.len(),
{
    if groups.len() == 0 {
        Seq::empty()
    } else {
        group_listing(groups[0], platform_type, device_type, status) + machine_listing(
            groups.drop_first(),
            platform_type,
            device_type,
            status,
        )
    }
}

proof fn lemma_group_listing_device(
    group: DeviceFiles,
    platform_type: spec_fn(u8) -> Option<Seq<char>>,
    device_type: spec_fn(u8) -> Option<Seq<char>>,
    status: spec_fn(Seq<char>) -> CoreStatus,
    v: CoreView,
)
    requires
        group_listing(group, platform_type, device_type, status).contains(v),
    ensures
        v.device_idx == group.idx,
{
    match listed_device_type(platform_type(group.idx), device_type(group.idx)) {
        Some(t) => {
            let probes = file_views(group.files@).map_values(probe_with(status));
            let found = found_cores(group.idx, t, probes);
            let m = status_masked(found);
            lemma_masking_only_marks(found);
            let i = choose|i: int| 0 <= i < m.len() && m[i] == v;
            assert(found[i].device_idx == v.device_idx);
            assert(found.contains(found[i]));
            probes.lemma_filter_map_contains(core_of_probe(group.idx, t), found[i]);
        },
        None => {},
    }
}

proof fn lemma_count_absent(s: Seq<CoreView>, v: CoreView)
    requires
        !s.contains(v),
    ensures
        s.to_multiset().count(v) == 0,
{
    vstd::seq_lib::to_multiset_contains(s, v);
}

/// How often a core occurs in the listing of a device map is how often it
/// occurs in the group of its own device.
proof fn lemma_machine_listing_count(
    groups: Seq<DeviceFiles>,
    platform_type: spec_fn(u8) -> Option<Seq<char>>,
    device_type: spec_fn(u8) -> Option<Seq<char>>,
    status: spec_fn(Seq<char>) -> CoreStatus,
    v: CoreView,
)
    requires
        forall|i: int, j: int|
            0 <= i < j < groups.len() ==> #[trigger] groups[i].idx != #[trigger] groups[j].idx,
    ensures
        forall|i: int|
            0 <= i < groups.len() && #[trigger] groups[i].idx == v.device_idx ==> machine_listing(
                groups,
                platform_type,
                device_type,
                status,
            ).to_multiset().count(v) == group_listing(
                groups[i],
                platform_type,
                device_type,
                status,
            ).to_multiset().count(v),
        (forall|i: int| 0 <= i < groups.len() ==> #[trigger] groups[i].idx != v.device_idx)
            ==> machine_listing(groups, platform_type, device_type, status).to_multiset().count(v)
            == 0,
    decreases groups.len(),
{
    broadcast use vstd::multiset::group_multiset_axioms;

    if groups.len() > 0 {
        let rest = groups.drop_first();
        assert forall|i: int, j: int| 0 <= i < j < rest.len() implies #[trigger] rest[i].idx
            != #[trigger] rest[j].idx by {
            assert(rest[i] == groups[i + 1] && rest[j] == groups[j + 1]);
        }
        lemma_machine_listing_count(rest, platform_type, device_type, status, v);
        let first = group_listing(groups[0], platform_type, device_type, status);
        let tail = machine_listing(rest, platform_type, device_type, status);
        vstd::seq_lib::lemma_multiset_commutative(first, tail);
        assert(machine_listing(groups, platform_type, device_type, status) == first + tail);
        if groups[0].idx == v.device_idx {
            assert forall|i: int| 0 <= i < rest.len() implies #[trigger] rest[i].idx != v.device_idx by {
                assert(rest[i] == groups[i + 1]);
            }
            assert forall|i: int|
                0 <= i < groups.len() && #[trigger] groups[i].idx == v.device_idx implies i == 0 by {
                if i != 0 {
                    assert(groups[0].idx != groups[i].idx);
                }
            }
        } else {
            if first.contains(v) {
                lemma_group_listing_device(groups[0], platform_type, device_type, status, v);
            }
            lemma_count_absent(first, v);
            assert forall|i: int|
                0 <= i < groups.len() && #[trigger] groups[i].idx == v.device_idx implies machine_listing(
                groups,
                platform_type,
                device_type,
                status,
            ).to_multiset().count(v) == group_listing(
                groups[i],
                platform_type,
                device_type,
                status,
            ).to_multiset().count(v) by {
                assert(rest[i - 1] == groups[i]);
            }
            if forall|i: int| 0 <= i < groups.len() ==> #[trigger] groups[i].idx != v.device_idx {
                assert forall|i: int| 0 <= i < rest.len() implies #[trigger] rest[i].idx != v.device_idx by {
                    assert(rest[i] == groups[i + 1]);
                }
            }
        }
    } else {
        assert(machine_listing(groups, platform_type, device_type, status).to_multiset()
            =~= vstd::multiset::Multiset::empty()) by {
            vstd::seq_lib::to_multiset_len(machine_listing(groups, platform_type, device_type, status));
            vstd::multiset::lemma_multiset_empty_len(
                machine_listing(groups, platform_type, device_type, status).to_multiset(),
            );
        }
    }
}

/// Entries that are the same up to order mention the same devices.
proof fn lemma_mentions_same_devices(e1: Seq<DeviceFileView>, e2: Seq<DeviceFileView>, k: u8)
    requires
        e1.to_multiset() == e2.to_multiset(),
    ensures
        mentions_device(e1, k) <==> mentions_device(e2, k),
{
    if mentions_device(e1, k) {
        let m = choose|m: int| 0 <= m < e1.len() && #[trigger] of_device(k)(e1[m]);
        assert(e1.contains(e1[m]));
        lemma_same_elements(e1, e2, e1[m]);
        let m2 = choose|m2: int| 0 <= m2 < e2.len() && e2[m2] == e1[m];
        assert(of_device(k)(e2[m2]));
    }
    if mentions_device(e2, k) {
        let m = choose|m: int| 0 <= m < e2.len() && #[trigger] of_device(k)(e2[m]);
        assert(e2.contains(e2[m]));
        lemma_same_elements(e1, e2, e2[m]);
        let m1 = choose|m1: int| 0 <= m1 < e1.len() && e1[m1] == e2[m];
        assert(of_device(k)(e1[m1]));
    }
}

/// The listing of the machine does not depend on the order in which the
/// device directory lists its entries, nor on the order of the groups of
/// the device map: two device maps of the same entries, with the same sysfs
/// texts and the same statuses, give the same sorted listing.
pub proof fn lemma_listing_independent_of_directory_order(
    e1: Seq<DeviceFileView>,
    e2: Seq<DeviceFileView>,
    g1: Seq<DeviceFiles>,
    g2: Seq<DeviceFiles>,
    platform_type: spec_fn(u8) -> Option<Seq<char>>,
    device_type: spec_fn(u8) -> Option<Seq<char>>,
    status: spec_fn(Seq<char>) -> CoreStatus,
)
    requires
        e1.to_multiset() == e2.to_multiset(),
        is_device_map(g1, e1),
        is_device_map(g2, e2),
    ensures
        machine_listing(g1, platform_type, device_type, status).sort_by(core_order())
            == machine_listing(g2, platform_type, device_type, status).sort_by(core_order()),
{
    let l1 = machine_listing(g1, platform_type, device_type, status);
    let l2 = machine_listing(g2, platform_type, device_type, status);
    assert forall|v: CoreView| l1.to_multiset().count(v) == l2.to_multiset().count(v) by {
        let k = v.device_idx;
        lemma_machine_listing_count(g1, platform_type, device_type, status, v);
        lemma_machine_listing_count(g2, platform_type, device_type, status, v);
        lemma_mentions_same_devices(e1, e2, k);
        if mentions_device(e1, k) {
            let i1 = choose|i: int| 0 <= i < g1.len() && #[trigger] g1[i].idx == k;
            let i2 = choose|i: int| 0 <= i < g2.len() && #[trigger] g2[i].idx == k;
            let f1 = file_views(g1[i1].files@);
            let f2 = file_views(g2[i2].files@);
            assert(f1 == e1.filter(of_device(k)));
            assert(f2 == e2.filter(of_device(k)));
            lemma_filter_multiset(of_device(k), e1, e2);
            match listed_device_type(platform_type(k), device_type(k)) {
                Some(t) => {
                    let p1 = f1.map_values(probe_with(status));
                    let p2 = f2.map_values(probe_with(status));
                    lemma_map_values_multiset(probe_with(status), f1, f2);
                    lemma_filter_map_multiset(core_of_probe(k, t), p1, p2);
                    lemma_masking_same_cores(found_cores(k, t, p1), found_cores(k, t, p2));
                },
                None => {},
            }
        } else {
            assert forall|i: int| 0 <= i < g1.len() implies #[trigger] g1[i].idx != k by {
                if g1[i].idx == k {
                    assert(exists|j: int| 0 <= j < g1.len() && #[trigger] g1[j].idx == k);
                }
            }
            assert forall|i: int| 0 <= i < g2.len() implies #[trigger] g2[i].idx != k by {
                if g2[i].idx == k {
                    assert(exists|j: int| 0 <= j < g2.len() && #[trigger] g2[j].idx == k);
                }
            }
        }
    }
    assert(l1.to_multiset() =~= l2.to_multiset());
    lemma_listing_order_independent(l1, l2);
}


/// What was read about one device: its index, the texts of its sysfs
/// `platform_type` and `device_type` files where they were read, and its
/// device files with the status read from each.
pub struct DeviceProbe {
    pub idx: u8,
    pub platform_type: Option<String>,
    pub device_type: Option<String>,
    pub probes: Vec<(DeviceFile, CoreStatus)>,
}

/// The cores that one probed device contributes to the listing.
pub open spec fn probe_listing(d: DeviceProbe) -> Seq<CoreView> {
    match listed_device_type(text_of(d.platform_type), text_of(d.device_type)) {
        Some(t) => status_masked(found_cores(d.idx, t, probe_views(d.probes@))),
        None => Seq::empty(),
    }
}

/// The cores of all probed devices, device after device, before sorting.
pub open spec fn probes_listing(devices: Seq<DeviceProbe>) -> Seq<CoreView>
    decreases devices.len(),
{
    if devices.len() == 0 {
        Seq::empty()
    } else {
        probe_listing(devices[0]) + probes_listing(devices.drop_first())
    }
}

/// Whether the name of each probed file of each device is the last
/// component of its path.
pub open spec fn all_devices_named_by_path(devices: Seq<DeviceProbe>) -> bool {
    forall|i: int| 0 <= i < devices.len() ==> all_named_by_path(#[trigger] devices[i].probes@)
}

proof fn lemma_concat_views_push(groups: Seq<Vec<Core>>, g: Vec<Core>)
    ensures
        concat_views(groups.push(g)) == concat_views(groups) + views(g@),
    decreases groups.len(),
{
    if groups.len() == 0 {
        assert(groups.push(g).drop_first() =~= Seq::<Vec<Core>>::empty());
        assert(groups.push(g)[0] == g);
        assert(concat_views(Seq::<Vec<Core>>::empty()) == Seq::<CoreView>::empty());
        assert(concat_views(groups.push(g)) =~= views(g@));
        assert(concat_views(groups) + views(g@) =~= views(g@));
    } else {
        lemma_concat_views_push(groups.drop_first(), g);
        assert(groups.push(g).drop_first() =~= groups.drop_first().push(g));
        assert(concat_views(groups.push(g)) =~= concat_views(groups) + views(g@));
    }
}

/// The listing of the machine: each device that is a FuriosaAI NPU of a
/// known device type contributes its cores, with statuses masked, and all
/// cores come out in listing order.
pub fn list_devices(devices: Vec<DeviceProbe>) -> (r: Vec<Core>)
    requires
        all_devices_named_by_path(devices@),
    ensures
        views(r@) == probes_listing(devices@).sort_by(core_order()),
{
    let ghost whole = probes_listing(devices@);
    let mut rest = devices;
    let mut groups: Vec<Vec<Core>> = Vec::new();
    assert(concat_views(groups@) + probes_listing(rest@) =~= whole);
    while rest.len() > 0
        invariant
            concat_views(groups@) + probes_listing(rest@) == whole,
            all_devices_named_by_path(rest@),
        decreases rest@.len(),
    {
        let ghost rest_before = rest@;
        let ghost groups_before = groups@;
        assert(all_named_by_path(rest_before[0].probes@));
        let d = rest.remove(0);
        proof {
            assert(rest@ =~= rest_before.drop_first());
            assert forall|i: int| 0 <= i < rest@.len() implies all_named_by_path(#[trigger] rest@[i].probes@) by {
                assert(rest@[i] == rest_before[i + 1]);
            }
        }
        let ghost listed = probe_listing(d);
        let cores = match device_type_to_list(d.platform_type, d.device_type) {
            Some(t) => collect_cores(d.idx, t, d.probes),
            None => Vec::new(),
        };
        assert(views(cores@) =~= listed);
        groups.push(cores);
        proof {
            lemma_concat_views_push(groups_before, cores);
            assert(probes_listing(rest_before) == listed + probes_listing(rest@));
            assert(concat_views(groups@) + probes_listing(rest@) =~= concat_views(groups_before)
                + probes_listing(rest_before));
        }
    }
    assert(concat_views(groups@) =~= whole);
    list_cores(groups)
}

/// Whether the probed devices are the groups of a device map, in the same
/// order, probed where `platform_type`, `device_type` and `status` give
/// what sysfs and the device files say: the same device type is decided,
/// and a listed device has its files probed in order.
pub open spec fn probes_match_groups(
    devices: Seq<DeviceProbe>,
    groups: Seq<DeviceFiles>,
    platform_type: spec_fn(u8) -> Option<Seq<char>>,
    device_type: spec_fn(u8) -> Option<Seq<char>>,
    status: spec_fn(Seq<char>) -> CoreStatus,
) -> bool {
    &&& devices.len() == groups.len()
    &&& forall|i: int|
        0 <= i < devices.len() ==> {
            let d = #[trigger] devices[i];
            let g = groups[i];
            &&& d.idx == g.idx
            &&& listed_device_type(text_of(d.platform_type), text_of(d.device_type))
                == listed_device_type(platform_type(g.idx), device_type(g.idx))
            &&& listed_device_type(platform_type(g.idx), device_type(g.idx)) is Some
                ==> probe_views(d.probes@) == file_views(g.files@).map_values(probe_with(status))
        }
}

/// Probing the groups of a device map gives the listing of the machine.
pub proof fn lemma_probes_listing_is_machine_listing(
    devices: Seq<DeviceProbe>,
    groups: Seq<DeviceFiles>,
    platform_type: spec_fn(u8) -> Option<Seq<char>>,
    device_type: spec_fn(u8) -> Option<Seq<char>>,
    status: spec_fn(Seq<char>) -> CoreStatus,
)
    requires
        probes_match_groups(devices, groups, platform_type, device_type, status),
    ensures
        probes_listing(devices) == machine_listing(groups, platform_type, device_type, status),
    decreases devices.len(),
{
    if devices.len() > 0 {
        let d = devices[0];
        let g = groups[0];
        assert(probe_listing(d) == group_listing(g, platform_type, device_type, status));
        assert forall|i: int| 0 <= i < devices.drop_first().len() implies {
            let d = #[trigger] devices.drop_first()[i];
            let g = groups.drop_first()[i];
            &&& d.idx == g.idx
            &&& listed_device_type(text_of(d.platform_type), text_of(d.device_type))
                == listed_device_type(platform_type(g.idx), device_type(g.idx))
            &&& listed_device_type(platform_type(g.idx), device_type(g.idx)) is Some
                ==> probe_views(d.probes@) == file_views(g.files@).map_values(probe_with(status))
        } by {
            assert(devices.drop_first()[i] == devices[i + 1]);
            assert(groups.drop_first()[i] == groups[i + 1]);
        }
        lemma_probes_listing_is_machine_listing(
            devices.drop_first(),
            groups.drop_first(),
            platform_type,
            device_type,
            status,
        );
    }
}

/// What `list_devices` returns does not depend on the order in which the
/// device directory lists its entries, nor on the order of the device map's
/// groups: probing two device maps of the same entries against the same
/// sysfs texts and statuses gives the same listing.
pub proof fn lemma_list_devices_independent_of_directory_order(
    e1: Seq<DeviceFileView>,
    e2: Seq<DeviceFileView>,
    g1: Seq<DeviceFiles>,
    g2: Seq<DeviceFiles>,
    d1: Seq<DeviceProbe>,
    d2: Seq<DeviceProbe>,
    platform_type: spec_fn(u8) -> Option<Seq<char>>,
    device_type: spec_fn(u8) -> Option<Seq<char>>,
    status: spec_fn(Seq<char>) -> CoreStatus,
)
    requires
        e1.to_multiset() == e2.to_multiset(),
        is_device_map(g1, e1),
        is_device_map(g2, e2),
        probes_match_groups(d1, g1, platform_type, device_type, status),
        probes_match_groups(d2, g2, platform_type, device_type, status),
    ensures
        probes_listing(d1).sort_by(core_order()) == probes_listing(d2).sort_by(core_order()),
{
    lemma_probes_listing_is_machine_listing(d1, g1, platform_type, device_type, status);
    lemma_probes_listing_is_machine_listing(d2, g2, platform_type, device_type, status);
    lemma_listing_independent_of_directory_order(e1, e2, g1, g2, platform_type, device_type, status);
}


/// Whether a probed file's name names a core.
pub open spec fn names_a_core() -> spec_fn((DeviceFileView, CoreStatus)) -> bool {
    |p: (DeviceFileView, CoreStatus)| core_kind_of_name(p.0.name) is Some
}

proof fn lemma_filter_map_follows_filter(
    s: Seq<(DeviceFileView, CoreStatus)>,
    f: spec_fn((DeviceFileView, CoreStatus)) -> Option<CoreView>,
    p: spec_fn((DeviceFileView, CoreStatus)) -> bool,
)
    requires
        forall|x: (DeviceFileView, CoreStatus)| #[trigger] p(x) <==> f(x) is Some,
    ensures
        s.filter_map(f).len() == s.filter(p).len(),
        forall|i: int|
            0 <= i < s.filter(p).len() ==> f(#[trigger] s.filter(p)[i]) == Some(s.filter_map(f)[i]),
    decreases s.len(),
{
    reveal(Seq::filter);
    if s.len() > 0 {
        lemma_filter_map_follows_filter(s.drop_last(), f, p);
        let fm = s.drop_last().filter_map(f);
        let fl = s.drop_last().filter(p);
        if p(s.last()) {
            assert(s.filter(p) == fl.push(s.last()));
            assert(s.filter_map(f) == fm + seq![f(s.last())->0]);
            assert forall|i: int| 0 <= i < s.filter(p).len() implies f(#[trigger] s.filter(p)[i])
                == Some(s.filter_map(f)[i]) by {
                if i < fl.len() {
                    assert(s.filter(p)[i] == fl[i]);
                    assert(s.filter_map(f)[i] == fm[i]);
                }
            }
        } else {
            assert(s.filter(p) == fl);
            assert(s.filter_map(f) == fm);
        }
    }
}

/// The cores of one device as `collect_cores` returns them, told from the
/// probed files alone: one core for each file whose name names a core, in
/// the files' order; each core has that file's path, the kind its name
/// gives, the device's index and type, and the status read from that very
/// file, except that an available core becomes `Occupied2` exactly when it
/// shares a processing element with a core whose file was read as occupied.
pub proof fn lemma_collected_cores(
    device_idx: u8,
    device_type: DeviceType,
    probes: Seq<(DeviceFileView, CoreStatus)>,
)
    ensures
        status_masked(found_cores(device_idx, device_type, probes)).len() == probes.filter(
            names_a_core(),
        ).len(),
        forall|i: int|
            0 <= i < probes.filter(names_a_core()).len() ==> {
                let r = #[trigger] status_masked(found_cores(device_idx, device_type, probes))[i];
                let q = probes.filter(names_a_core())[i];
                &&& r.device_idx == device_idx
                &&& r.device_type == device_type
                &&& r.path == q.0.path
                &&& core_kind_of_name(q.0.name) == Some(r.core_type)
                &&& (r.status == q.1 || (q.1 == CoreStatus::Available && r.status
                    == CoreStatus::Occupied2))
            },
        forall|i: int|
            0 <= i < probes.filter(names_a_core()).len() && probes.filter(names_a_core())[i].1
                == CoreStatus::Available ==> ((#[trigger] status_masked(
                found_cores(device_idx, device_type, probes),
            )[i]).status == CoreStatus::Occupied2 <==> exists|j: int, x: u8|
                0 <= j < probes.filter(names_a_core()).len() && probes.filter(names_a_core())[j].1
                    == CoreStatus::Occupied && indices_of(
                    status_masked(found_cores(device_idx, device_type, probes))[j].core_type,
                ).contains(x) && indices_of(
                    status_masked(found_cores(device_idx, device_type, probes))[i].core_type,
                ).contains(x)),
{
    let f = core_of_probe(device_idx, device_type);
    let p = names_a_core();
    let found = found_cores(device_idx, device_type, probes);
    let q = probes.filter(p);
    let r = status_masked(found);
    assert forall|x: (DeviceFileView, CoreStatus)| #[trigger] p(x) <==> f(x) is Some by {}
    lemma_filter_map_follows_filter(probes, f, p);
    assert forall|i: int| 0 <= i < q.len() implies found[i] == (CoreView {
        device_idx,
        path: q[i].0.path,
        core_type: core_kind_of_name(q[i].0.name)->0,
        device_type,
        status: q[i].1,
    }) by {
        assert(f(q[i]) == Some(found[i]));
    }
    assert forall|i: int|
        0 <= i < q.len() && q[i].1 == CoreStatus::Available implies ((#[trigger] r[i]).status
        == CoreStatus::Occupied2 <==> exists|j: int, x: u8|
        0 <= j < q.len() && q[j].1 == CoreStatus::Occupied && indices_of(r[j].core_type).contains(
            x,
        ) && indices_of(r[i].core_type).contains(x)) by {
        assert(r[i] == masked(found, found[i]));
        if r[i].status == CoreStatus::Occupied2 {
            let x = choose|x: u8| #[trigger] holds_index(found[i], x) && index_occupied(found, x);
            let j = choose|j: int|
                0 <= j < found.len() && found[j].status == CoreStatus::Occupied && #[trigger] holds_index(found[j], x);
            assert(r[j] == masked(found, found[j]));
            assert(q[j].1 == CoreStatus::Occupied && indices_of(r[j].core_type).contains(x)
                && indices_of(r[i].core_type).contains(x));
        }
        if exists|j: int, x: u8|
            0 <= j < q.len() && q[j].1 == CoreStatus::Occupied && indices_of(r[j].core_type).contains(
                x,
            ) && indices_of(r[i].core_type).contains(x) {
            let (j, x) = choose|j: int, x: u8|
                0 <= j < q.len() && q[j].1 == CoreStatus::Occupied && indices_of(
                    r[j].core_type,
                ).contains(x) && indices_of(r[i].core_type).contains(x);
            assert(r[j] == masked(found, found[j]));
            assert(holds_index(found[j], x));
            assert(index_occupied(found, x));
            assert(holds_index(found[i], x));
        }
    }
}

proof fn lemma_probe_listing_device(d: DeviceProbe, v: CoreView)
    requires
        probe_listing(d).contains(v),
    ensures
        v.device_idx == d.idx,
{
    match listed_device_type(text_of(d.platform_type), text_of(d.device_type)) {
        Some(t) => {
            let probes = probe_views(d.probes@);
            let found = found_cores(d.idx, t, probes);
            let m = status_masked(found);
            lemma_masking_only_marks(found);
            let i = choose|i: int| 0 <= i < m.len() && m[i] == v;
            assert(found.contains(found[i]));
            probes.lemma_filter_map_contains(core_of_probe(d.idx, t), found[i]);
        },
        None => {},
    }
}

proof fn lemma_probes_listing_member(devices: Seq<DeviceProbe>, v: CoreView)
    requires
        probes_listing(devices).contains(v),
    ensures
        exists|k: int| 0 <= k < devices.len() && #[trigger] probe_listing(devices[k]).contains(v),
    decreases devices.len(),
{
    if devices.len() > 0 {
        let first = probe_listing(devices[0]);
        let rest = probes_listing(devices.drop_first());
        let i = choose|i: int| 0 <= i < (first + rest).len() && (first + rest)[i] == v;
        if i < first.len() {
            assert(first[i] == v);
            assert(probe_listing(devices[0]).contains(v));
        } else {
            assert(rest[i - first.len()] == v);
            lemma_probes_listing_member(devices.drop_first(), v);
            let k = choose|k: int| 0 <= k < devices.drop_first().len() && #[trigger] probe_listing(
                devices.drop_first()[k],
            ).contains(v);
            assert(devices.drop_first()[k] == devices[k + 1]);
            assert(probe_listing(devices[k + 1]).contains(v));
        }
    }
}

/// Every listed device has its cores masked, whatever its device type: in
/// the listing, no available core shares a processing element with an
/// occupied core of the same device.
pub proof fn lemma_listing_masks_every_device(devices: Seq<DeviceProbe>)
    requires
        forall|i: int, j: int|
            0 <= i < j < devices.len() ==> #[trigger] devices[i].idx != #[trigger] devices[j].idx,
    ensures
        forall|v: CoreView, w: CoreView, x: u8|
            #[trigger] probes_listing(devices).sort_by(core_order()).contains(v)
                && #[trigger] probes_listing(devices).sort_by(core_order()).contains(w)
                && v.device_idx == w.device_idx && v.status == CoreStatus::Available && w.status
                == CoreStatus::Occupied ==> !(#[trigger] indices_of(v.core_type).contains(x)
                && indices_of(w.core_type).contains(x)),
{
    let l = probes_listing(devices);
    let sorted = l.sort_by(core_order());
    lemma_core_order_total();
    l.lemma_sort_by_ensures(core_order());
    assert forall|v: CoreView, w: CoreView, x: u8|
        #[trigger] sorted.contains(v) && #[trigger] sorted.contains(w) && v.device_idx
            == w.device_idx && v.status == CoreStatus::Available && w.status
            == CoreStatus::Occupied implies !(#[trigger] indices_of(v.core_type).contains(x)
        && indices_of(w.core_type).contains(x)) by {
        lemma_same_elements(l, sorted, v);
        lemma_same_elements(l, sorted, w);
        lemma_probes_listing_member(devices, v);
        lemma_probes_listing_member(devices, w);
        let kv = choose|k: int| 0 <= k < devices.len() && #[trigger] probe_listing(devices[k]).contains(v);
        let kw = choose|k: int| 0 <= k < devices.len() && #[trigger] probe_listing(devices[k]).contains(w);
        lemma_probe_listing_device(devices[kv], v);
        lemma_probe_listing_device(devices[kw], w);
        if kv != kw {
            if kv < kw {
                assert(devices[kv].idx != devices[kw].idx);
            } else {
                assert(devices[kw].idx != devices[kv].idx);
            }
        }
        let d = devices[kv];
        match listed_device_type(text_of(d.platform_type), text_of(d.device_type)) {
            Some(t) => {
                let found = found_cores(d.idx, t, probe_views(d.probes@));
                let m = status_masked(found);
                lemma_masked_available_is_free(found);
                let iv = choose|i: int| 0 <= i < m.len() && m[i] == v;
                let iw = choose|i: int| 0 <= i < m.len() && m[i] == w;
                if indices_of(v.core_type).contains(x) && indices_of(w.core_type).contains(x) {
                    assert(holds_index(m[iw], x));
                    assert(index_occupied(m, x));
                    assert(holds_index(m[iv], x));
                    assert(shares_occupied_index(m, m[iv]));
                }
            },
            None => {},
        }
    }
}

} // verus!
