use vstd::prelude::*;
use crate::names::{classify_device_file, device_file_name, DeviceFileName};
use crate::text::{chars_equal, chars_of};

verus! {

/// An entry of the device directory: its file name and its full path.
pub struct DeviceFile {
    pub name: String,
    pub path: String,
}

/// The mathematical model of a `DeviceFile`.
pub struct DeviceFileView {
    pub name: Seq<char>,
    pub path: Seq<char>,
}

impl View for DeviceFile {
    type V = DeviceFileView;

    open spec fn view(&self) -> DeviceFileView {
        DeviceFileView { name: self.name@, path: self.path@ }
    }
}

impl DeviceFile {
    pub fn new(name: String, path: String) -> (r: DeviceFile)
        ensures
            r@ == (DeviceFileView { name: name@, path: path@ }),
    {
        DeviceFile { name, path }
    }
}

/// Whether `name` is the last component of `path`: a non-empty name other
/// than "." and "..", without '/', that is the whole path or follows its
/// last '/'.
pub open spec fn is_file_name_of(name: Seq<char>, path: Seq<char>) -> bool {
    &&& name.len() > 0
    &&& !name.contains('/')
    &&& name != seq!['.']
    &&& name != seq!['.', '.']
    &&& (path == name || (path.len() > name.len() && path[path.len() - name.len() - 1] == '/'
        && path.skip(path.len() - name.len()) == name))
}

/// Whether the entry's name is the last component of its path.
pub fn file_name_matches_path(file: &DeviceFile) -> (r: bool)
    ensures
        r == is_file_name_of(file@.name, file@.path),
{
    let name = chars_of(file.name.as_str());
    let path = chars_of(file.path.as_str());
    let n = name.len();
    if n == 0 {
        return false;
    }
    let mut i: usize = 0;
    while i < n
        invariant
            n == name@.len(),
            name@ == file@.name,
            i <= n,
            forall|j: int| 0 <= j < i ==> name@[j] != '/',
        decreases n - i,
    {
        if name[i] == '/' {
            assert(name@.contains(name@[i as int]));
            return false;
        }
        i = i + 1;
    }
    assert(!name@.contains('/'));
    if n == 1 && name[0] == '.' {
        assert(name@ =~= seq!['.']);
        return false;
    }
    if n == 2 && name[0] == '.' && name[1] == '.' {
        assert(name@ =~= seq!['.', '.']);
        return false;
    }
    assert(name@ != seq!['.']) by {
        if name@ == seq!['.'] {
            assert(name@[0] == '.');
        }
    }
    assert(name@ != seq!['.', '.']) by {
        if name@ == seq!['.', '.'] {
            assert(name@[0] == '.' && name@[1] == '.');
        }
    }
    if chars_equal(&name, &path) {
        return true;
    }
    let m = path.len();
    if m <= n || path[m - n - 1] != '/' {
        return false;
    }
    let mut k: usize = 0;
    while k < n
        invariant
            n == name@.len(),
            m == path@.len(),
            name@ == file@.name,
            path@ == file@.path,
            m > n,
            k <= n,
            forall|j: int| 0 <= j < k ==> path@[m - n + j] == name@[j],
        decreases n - k,
    {
        if path[m - n + k] != name[k] {
            assert(path@.skip(m - n)[k as int] != name@[k as int]);
            return false;
        }
        k = k + 1;
    }
    assert(path@.skip(m - n) =~= name@);
    true
}

/// The device files of one device.
pub struct DeviceFiles {
    pub idx: u8,
    pub files: Vec<DeviceFile>,
}

/// Why the device directory could not be read into a map.
#[derive(Debug, Clone, Copy, PartialEq, Eq, Structural)]
pub enum DeviceMapError {
    /// A device file's name follows the device pattern, but its device index
    /// exceeds 255.
    IndexOverflow,
}

/// The models of a sequence of directory entries.
pub open spec fn file_views(files: Seq<DeviceFile>) -> Seq<DeviceFileView> {
    files.map_values(|f: DeviceFile| f@)
}

/// Whether a directory entry is a device file of device `k`.
pub open spec fn of_device(k: u8) -> spec_fn(DeviceFileView) -> bool {
    |f: DeviceFileView| device_file_name(f.name) == DeviceFileName::Device(k)
}

/// Whether some entry's name follows the device pattern with an index above 255.
pub open spec fn has_index_overflow(entries: Seq<DeviceFileView>) -> bool {
    exists|m: int|
        0 <= m < entries.len() && #[trigger] device_file_name(entries[m].name)
            == DeviceFileName::IndexOverflow
}

/// Whether some entry is a device file of device `k`.
pub open spec fn mentions_device(entries: Seq<DeviceFileView>, k: u8) -> bool {
    exists|m: int| 0 <= m < entries.len() && #[trigger] of_device(k)(entries[m])
}

/// `groups` is the device map of `entries`: one group per device that some
/// entry names, each holding that device's entries in directory order.
pub open spec fn is_device_map(groups: Seq<DeviceFiles>, entries: Seq<DeviceFileView>) -> bool {
    &&& forall|i: int, j: int|
        0 <= i < j < groups.len() ==> #[trigger] groups[i].idx != #[trigger] groups[j].idx
    &&& forall|k: u8|
        (exists|i: int| 0 <= i < groups.len() && #[trigger] groups[i].idx == k)
            <==> #[trigger] mentions_device(entries, k)
    &&& forall|i: int|
        0 <= i < groups.len() ==> file_views(#[trigger] groups[i].files@) == entries.filter(
            of_device(groups[i].idx),
        )
}

/// Index of the group of device `k`, if there is one.
fn find_group(groups: &Vec<DeviceFiles>, k: u8) -> (r: Option<usize>)
    ensures
        match r {
            Some(j) => j < groups@.len() && groups@[j as int].idx == k,
            None => forall|i: int| 0 <= i < groups@.len() ==> groups@[i].idx != k,
        },
{
    let mut j: usize = 0;
    while j < groups.len()
        invariant
            j <= groups@.len(),
            forall|i: int| 0 <= i < j ==> groups@[i].idx != k,
        decreases groups@.len() - j,
    {
        if groups[j].idx == k {
            return Some(j);
        }
        j = j + 1;
    }
    None
}

/// Groups the entries of the device directory by device. Entries whose name
/// does not follow the pattern "npu", digits, "pe", then anything but a line
/// break, are left out.
pub fn build_device_map(entries: Vec<DeviceFile>) -> (r: Result<Vec<DeviceFiles>, DeviceMapError>)
    ensures
        match r {
            Ok(groups) => !has_index_overflow(file_views(entries@)) && is_device_map(
                groups@,
                file_views(entries@),
            ),
            Err(e) => e == DeviceMapError::IndexOverflow && has_index_overflow(
                file_views(entries@),
            ),
        },
{
    let ghost all = file_views(entries@);
    let mut rest = entries;
    let mut groups: Vec<DeviceFiles> = Vec::new();
    let ghost mut n: int = 0;
    proof {
        reveal(Seq::filter);
    }
    while rest.len() > 0
        invariant
            all == file_views(entries@),
            0 <= n <= all.len(),
            n + rest@.len() == all.len(),
            forall|j: int| 0 <= j < rest@.len() ==> #[trigger] rest@[j]@ == all[n + j],
            !has_index_overflow(all.take(n)),
            is_device_map(groups@, all.take(n)),
        decreases rest@.len(),
    {
        let ghost rest_before = rest@;
        let ghost prefix = all.take(n);
        let ghost next = all.take(n + 1);
        let e = rest.remove(0);
        proof {
            assert(e@ == all[n]);
            assert(next.drop_last() == prefix);
            assert(next.last() == e@);
            assert forall|j: int| 0 <= j < rest@.len() implies #[trigger] rest@[j]@ == all[n + 1 + j] by {
                assert(rest@[j] == rest_before[j + 1]);
            }
            assert forall|k: u8| #[trigger] mentions_device(next, k) <==> (mentions_device(prefix, k) || of_device(k)(e@)) by {
                if mentions_device(next, k) {
                    let m = choose|m: int| 0 <= m < next.len() && #[trigger] of_device(k)(next[m]);
                    if m < n {
                        assert(prefix[m] == next[m]);
                    }
                }
                if mentions_device(prefix, k) {
                    let m = choose|m: int| 0 <= m < prefix.len() && #[trigger] of_device(k)(prefix[m]);
                    assert(prefix[m] == next[m]);
                }
                if of_device(k)(e@) {
                    assert(next[n] == e@);
                }
            }
            assert forall|k: u8| #[trigger] next.filter(of_device(k)) == (if of_device(k)(e@) {
                prefix.filter(of_device(k)).push(e@)
            } else {
                prefix.filter(of_device(k))
            }) by {
                reveal(Seq::filter);
            }
        }
        let name = chars_of(e.name.as_str());
        match classify_device_file(&name) {
            DeviceFileName::Unrelated => {
                proof {
                    assert(!has_index_overflow(next)) by {
                        if has_index_overflow(next) {
                            let m = choose|m: int|
                                0 <= m < next.len() && #[trigger] device_file_name(next[m].name)
                                    == DeviceFileName::IndexOverflow;
                            if m < n {
                                assert(prefix[m] == next[m]);
                            }
                        }
                    }
                    assert forall|i: int| 0 <= i < groups@.len() implies file_views(
                        #[trigger] groups@[i].files@,
                    ) == next.filter(of_device(groups@[i].idx)) by {
                        assert(!of_device(groups@[i].idx)(e@));
                    }
                    assert forall|k: u8|
                        (exists|i: int| 0 <= i < groups@.len() && #[trigger] groups@[i].idx == k)
                            <==> #[trigger] mentions_device(next, k) by {
                        assert(!of_device(k)(e@));
                        assert(mentions_device(prefix, k) <==> mentions_device(next, k));
                    }
                }
            },
            DeviceFileName::IndexOverflow => {
                proof {
                    assert(device_file_name(all[n].name) == DeviceFileName::IndexOverflow);
                    assert(has_index_overflow(all));
                }
                return Err(DeviceMapError::IndexOverflow);
            },
            DeviceFileName::Device(k) => {
                assert(of_device(k)(e@));
                proof {
                    assert(!has_index_overflow(next)) by {
                        if has_index_overflow(next) {
                            let m = choose|m: int|
                                0 <= m < next.len() && #[trigger] device_file_name(next[m].name)
                                    == DeviceFileName::IndexOverflow;
                            if m < n {
                                assert(prefix[m] == next[m]);
                            }
                        }
                    }
                }
                match find_group(&groups, k) {
                    Some(j) => {
                        let ghost groups_before = groups@;
                        let mut g = groups.remove(j);
                        let ghost files_before = file_views(g.files@);
                        g.files.push(e);
                        proof {
                            assert(file_views(g.files@) =~= files_before.push(all[n]));
                        }
                        groups.insert(j, g);
                        proof {
                            assert(groups@ =~= groups_before.update(j as int, g));
                            assert forall|i: int| 0 <= i < groups@.len() implies file_views(
                                #[trigger] groups@[i].files@,
                            ) == next.filter(of_device(groups@[i].idx)) by {
                                if i != j {
                                    assert(groups@[i] == groups_before[i]);
                                    assert(!of_device(groups@[i].idx)(e@));
                                }
                            }
                            assert forall|k2: u8|
                                (exists|i: int| 0 <= i < groups@.len() && #[trigger] groups@[i].idx == k2)
                                    <==> #[trigger] mentions_device(next, k2) by {
                                if exists|i: int| 0 <= i < groups@.len() && #[trigger] groups@[i].idx == k2 {
                                    let i = choose|i: int| 0 <= i < groups@.len() && #[trigger] groups@[i].idx == k2;
                                    assert(groups_before[i].idx == k2);
                                }
                                if mentions_device(prefix, k2) {
                                    let i = choose|i: int| 0 <= i < groups_before.len() && #[trigger] groups_before[i].idx == k2;
                                    assert(groups@[i].idx == k2);
                                }
                                if of_device(k2)(e@) {
                                    assert(groups@[j as int].idx == k2);
                                }
                            }
                            assert forall|a: int, b: int|
                                0 <= a < b < groups@.len() implies #[trigger] groups@[a].idx != #[trigger] groups@[b].idx by {
                                assert(groups@[a].idx == groups_before[a].idx);
                                assert(groups@[b].idx == groups_before[b].idx);
                            }
                        }
                    },
                    None => {
                        let ghost groups_before = groups@;
                        let mut files: Vec<DeviceFile> = Vec::new();
                        files.push(e);
                        groups.push(DeviceFiles { idx: k, files });
                        proof {
                            assert(!mentions_device(prefix, k));
                            assert(prefix.filter(of_device(k)).len() == 0) by {
                                assert forall|m: int| 0 <= m < prefix.len() implies !of_device(k)(#[trigger] prefix[m]) by {
                                    if of_device(k)(prefix[m]) {
                                        assert(mentions_device(prefix, k));
                                    }
                                }
                                prefix.lemma_all_neg_filter_empty(of_device(k));
                            }
                            assert(file_views(groups@.last().files@) =~= seq![all[n]]);
                            assert(prefix.filter(of_device(k)).push(e@) =~= seq![all[n]]);
                            assert forall|i: int| 0 <= i < groups@.len() implies file_views(
                                #[trigger] groups@[i].files@,
                            ) == next.filter(of_device(groups@[i].idx)) by {
                                if i < groups_before.len() {
                                    assert(groups@[i] == groups_before[i]);
                                    assert(!of_device(groups@[i].idx)(e@));
                                }
                            }
                            assert forall|k2: u8|
                                (exists|i: int| 0 <= i < groups@.len() && #[trigger] groups@[i].idx == k2)
                                    <==> #[trigger] mentions_device(next, k2) by {
                                if exists|i: int| 0 <= i < groups@.len() && #[trigger] groups@[i].idx == k2 {
                                    let i = choose|i: int| 0 <= i < groups@.len() && #[trigger] groups@[i].idx == k2;
                                    if i < groups_before.len() {
                                        assert(groups_before[i].idx == k2);
                                    }
                                }
                                if mentions_device(prefix, k2) {
                                    let i = choose|i: int| 0 <= i < groups_before.len() && #[trigger] groups_before[i].idx == k2;
                                    assert(groups@[i].idx == k2);
                                }
                                if of_device(k2)(e@) {
                                    assert(groups@[groups_before.len() as int].idx == k2);
                                }
                            }
                            assert forall|a: int, b: int|
                                0 <= a < b < groups@.len() implies #[trigger] groups@[a].idx != #[trigger] groups@[b].idx by {
                                if b == groups_before.len() {
                                    assert(groups@[a] == groups_before[a]);
                                } else {
                                    assert(groups@[a] == groups_before[a]);
                                    assert(groups@[b] == groups_before[b]);
                                }
                            }
                        }
                    },
                }
            },
        }
        proof {
            n = n + 1;
        }
    }
    assert(all.take(n) == all);
    Ok(groups)
}


proof fn lemma_filter_no_duplicates(s: Seq<DeviceFileView>, p: spec_fn(DeviceFileView) -> bool)
    requires
        s.no_duplicates(),
    ensures
        s.filter(p).no_duplicates(),
    decreases s.len(),
{
    reveal(Seq::filter);
    if s.len() > 0 {
        let d = s.drop_last();
        assert(d.no_duplicates());
        lemma_filter_no_duplicates(d, p);
        if p(s.last()) {
            let f = d.filter(p);
            if f.contains(s.last()) {
                d.lemma_filter_contains_rev(p, s.last());
                let j = choose|j: int| 0 <= j < d.len() && d[j] == s.last();
                assert(s[j] == s[s.len() - 1]);
            }
            assert forall|a: int, b: int| 0 <= a < b < f.push(s.last()).len() implies f.push(
                s.last(),
            )[a] != f.push(s.last())[b] by {
                if b == f.len() {
                    assert(f.contains(f[a]));
                }
            }
        }
    }
}

/// What a device map holds: every group has at least one file; every file
/// of a group is a device file of that group's device; no entry stands under
/// two devices; and where the directory lists no entry twice, no group holds
/// an entry twice.
pub proof fn lemma_device_map_contents(groups: Seq<DeviceFiles>, entries: Seq<DeviceFileView>)
    requires
        is_device_map(groups, entries),
    ensures
        forall|i: int| 0 <= i < groups.len() ==> (#[trigger] groups[i]).files@.len() > 0,
        forall|i: int, j: int|
            0 <= i < groups.len() && 0 <= j < groups[i].files@.len() ==> device_file_name(
                (#[trigger] groups[i].files@[j])@.name,
            ) == DeviceFileName::Device(groups[i].idx),
        forall|i1: int, j1: int, i2: int, j2: int|
            0 <= i1 < groups.len() && 0 <= i2 < groups.len() && i1 != i2 && 0 <= j1
                < groups[i1].files@.len() && 0 <= j2 < groups[i2].files@.len() ==> (
            #[trigger] groups[i1].files@[j1])@ != (#[trigger] groups[i2].files@[j2])@,
        entries.no_duplicates() ==> forall|i: int|
            0 <= i < groups.len() ==> file_views((#[trigger] groups[i]).files@).no_duplicates(),
{
    assert forall|i: int, j: int|
        0 <= i < groups.len() && 0 <= j < groups[i].files@.len() implies device_file_name(
        (#[trigger] groups[i].files@[j])@.name,
    ) == DeviceFileName::Device(groups[i].idx) by {
        let k = groups[i].idx;
        let fv = file_views(groups[i].files@);
        assert(fv == entries.filter(of_device(k)));
        entries.lemma_filter_pred(of_device(k), j);
        assert(fv[j] == groups[i].files@[j]@);
    }
    assert forall|i: int| 0 <= i < groups.len() implies (#[trigger] groups[i]).files@.len() > 0 by {
        let k = groups[i].idx;
        assert(exists|i2: int| 0 <= i2 < groups.len() && #[trigger] groups[i2].idx == k);
        assert(mentions_device(entries, k));
        let m = choose|m: int| 0 <= m < entries.len() && #[trigger] of_device(k)(entries[m]);
        entries.lemma_filter_contains(of_device(k), m);
        assert(file_views(groups[i].files@) == entries.filter(of_device(k)));
    }
    assert forall|i1: int, j1: int, i2: int, j2: int|
        0 <= i1 < groups.len() && 0 <= i2 < groups.len() && i1 != i2 && 0 <= j1
            < groups[i1].files@.len() && 0 <= j2 < groups[i2].files@.len() implies (
        #[trigger] groups[i1].files@[j1])@ != (#[trigger] groups[i2].files@[j2])@ by {
        assert(device_file_name(groups[i1].files@[j1]@.name) == DeviceFileName::Device(
            groups[i1].idx,
        ));
        assert(device_file_name(groups[i2].files@[j2]@.name) == DeviceFileName::Device(
            groups[i2].idx,
        ));
        if i1 < i2 {
            assert(groups[i1].idx != groups[i2].idx);
        } else {
            assert(groups[i2].idx != groups[i1].idx);
        }
    }
    if entries.no_duplicates() {
        assert forall|i: int| 0 <= i < groups.len() implies file_views(
            (#[trigger] groups[i]).files@,
        ).no_duplicates() by {
            lemma_filter_no_duplicates(entries, of_device(groups[i].idx));
        }
    }
}

} // verus!
