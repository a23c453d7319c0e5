use furiosa_device::{
    build_device_map, collect_cores, core_status_masking, core_status_of_open, device_type_path,
    device_type_to_list, file_name_matches_path, get_core, list_devices, DeviceProbe,
    identify_device_type, is_furiosa_device, list_cores, platform_type_path, sort_cores, Core,
    CoreStatus, CoreType, DeviceFile, DeviceMapError, DeviceType,
};
use furiosa_device::CoreStatus::{Available, Occupied, Occupied2};
use furiosa_device::DeviceType::{Renegade, Warboy};

fn make_core(core_type: CoreType, device_type: DeviceType, status: CoreStatus) -> Core {
    Core::new(0, String::new(), core_type, device_type, status)
}

fn statuses(cores: Vec<Core>) -> Vec<CoreStatus> {
    cores.into_iter().map(|c| c.status()).collect::<Vec<CoreStatus>>()
}

fn file(name: &str, dir: &str) -> DeviceFile {
    DeviceFile::new(name.to_string(), format!("{}/{}", dir, name))
}

#[test]
fn test_get_core() {
    let buf = DeviceFile::new("npu0pe0".to_string(), "tests/test-0/dev/npu0pe0".to_string());
    let res = get_core(0, buf, DeviceType::Warboy, CoreStatus::Available).unwrap();
    println!("{:?}", res);
    assert_eq!("npu0:0", res.name());
    assert_eq!("tests/test-0/dev/npu0pe0", res.path());
    assert_eq!(1, res.core_count());
    assert!(!res.is_fusioned());
}

#[test]
fn test_core_status_masking() {
    let cores = vec![make_core(CoreType::Single(0), Warboy, Available)];
    let res = core_status_masking(cores);
    assert_eq!(res.len(), 1);
    let core0 = res.get(0).unwrap();
    assert_eq!(core0.core_type(), &CoreType::Single(0));
    assert_eq!(core0.status(), Available);

    let cores = vec![make_core(CoreType::Single(0), Warboy, Occupied)];
    assert_eq!(statuses(core_status_masking(cores)), vec![Occupied]);

    let cores = vec![
        make_core(CoreType::Single(0), Warboy, Available),
        make_core(CoreType::Single(1), Warboy, Available),
    ];
    assert_eq!(statuses(core_status_masking(cores)), vec![Available, Available]);

    let cores = vec![
        make_core(CoreType::Single(0), Warboy, Available),
        make_core(CoreType::Single(1), Warboy, Occupied),
    ];
    assert_eq!(statuses(core_status_masking(cores)), vec![Available, Occupied]);

    let cores = vec![
        make_core(CoreType::Single(0), Warboy, Available),
        make_core(CoreType::Single(1), Warboy, Occupied),
        make_core(CoreType::Fusion(vec![0, 1]), Warboy, Available),
    ];
    assert_eq!(statuses(core_status_masking(cores)), vec![Available, Occupied, Occupied2]);

    let cores = vec![
        make_core(CoreType::Single(0), Warboy, Occupied),
        make_core(CoreType::Single(1), Warboy, Occupied),
        make_core(CoreType::Fusion(vec![0, 1]), Warboy, Available),
    ];
    assert_eq!(statuses(core_status_masking(cores)), vec![Occupied, Occupied, Occupied2]);

    let cores = vec![
        make_core(CoreType::Single(0), Warboy, Available),
        make_core(CoreType::Single(1), Warboy, Available),
        make_core(CoreType::Fusion(vec![0, 1]), Warboy, Occupied),
    ];
    assert_eq!(statuses(core_status_masking(cores)), vec![Occupied2, Occupied2, Occupied]);

    let renegade = |occupied: Option<usize>| {
        let types = vec![
            CoreType::Single(0),
            CoreType::Single(1),
            CoreType::Single(2),
            CoreType::Single(3),
            CoreType::Fusion(vec![0, 1]),
            CoreType::Fusion(vec![2, 3]),
            CoreType::Fusion(vec![0, 1, 2, 3]),
        ];
        types
            .into_iter()
            .enumerate()
            .map(|(i, t)| make_core(t, Renegade, if Some(i) == occupied { Occupied } else { Available }))
            .collect::<Vec<Core>>()
    };

    assert_eq!(
        statuses(core_status_masking(renegade(None))),
        vec![Available, Available, Available, Available, Available, Available, Available,]
    );
    assert_eq!(
        statuses(core_status_masking(renegade(Some(0)))),
        vec![Occupied, Available, Available, Available, Occupied2, Available, Occupied2,]
    );
    assert_eq!(
        statuses(core_status_masking(renegade(Some(5)))),
        vec![Available, Available, Occupied2, Occupied2, Available, Occupied, Occupied2,]
    );
    assert_eq!(
        statuses(core_status_masking(renegade(Some(6)))),
        vec![Occupied2, Occupied2, Occupied2, Occupied2, Occupied2, Occupied2, Occupied,]
    );
}

#[test]
fn masking_twice_is_masking_once() {
    let cores = || {
        vec![
            make_core(CoreType::Single(0), DeviceType::Renegade, Available),
            make_core(CoreType::Single(1), DeviceType::Renegade, Available),
            make_core(CoreType::Fusion(vec![1, 2]), DeviceType::Renegade, Available),
            make_core(CoreType::Single(2), DeviceType::Renegade, Occupied),
        ]
    };
    let once = core_status_masking(cores());
    let twice = core_status_masking(core_status_masking(cores()));
    assert_eq!(once, twice);
    assert_eq!(statuses(once), vec![Available, Available, CoreStatus::Occupied2, Occupied]);
}

#[test]
fn masking_keeps_everything_but_status() {
    let cores = vec![
        Core::new(3, "/dev/npu3pe0".to_string(), CoreType::Single(0), DeviceType::Warboy, CoreStatus::Occupied),
        Core::new(3, "/dev/npu3pe0-1".to_string(), CoreType::Fusion(vec![0, 1]), DeviceType::Warboy, CoreStatus::Available),
    ];
    let res = core_status_masking(cores);
    assert_eq!(res[1].device_idx(), 3);
    assert_eq!(res[1].path(), "/dev/npu3pe0-1");
    assert_eq!(res[1].core_type(), &CoreType::Fusion(vec![0, 1]));
    assert_eq!(res[1].device_type(), DeviceType::Warboy);
    assert_eq!(res[1].status(), CoreStatus::Occupied2);
}

#[test]
fn fusion_without_common_element_stays_available() {
    let cores = vec![
        make_core(CoreType::Single(0), DeviceType::Renegade, CoreStatus::Occupied),
        make_core(CoreType::Fusion(vec![2, 3]), DeviceType::Renegade, CoreStatus::Available),
        make_core(CoreType::Fusion(vec![]), DeviceType::Renegade, CoreStatus::Available),
        make_core(CoreType::Fusion(vec![3, 3, 0]), DeviceType::Renegade, CoreStatus::Available),
    ];
    assert_eq!(
        statuses(core_status_masking(cores)),
        vec![CoreStatus::Occupied, CoreStatus::Available, CoreStatus::Available, CoreStatus::Occupied2]
    );
}

#[test]
fn core_type_from_file_name() {
    assert_eq!(CoreType::try_from("npu0pe0"), Ok(CoreType::Single(0)));
    assert_eq!(CoreType::try_from("npu12pe3"), Ok(CoreType::Single(3)));
    assert_eq!(CoreType::try_from("npu0pe0-1"), Ok(CoreType::Fusion(vec![0, 1])));
    assert_eq!(CoreType::try_from("npu0pe0-1-2-3"), Ok(CoreType::Fusion(vec![0, 1, 2, 3])));
    assert_eq!(CoreType::try_from("npu0pe007"), Ok(CoreType::Single(7)));
    assert_eq!(CoreType::try_from("npu0pe255"), Ok(CoreType::Single(255)));
    assert_eq!(CoreType::try_from("npu0pe256"), Err(()));
    assert_eq!(CoreType::try_from("npu0pe"), Err(()));
    assert_eq!(CoreType::try_from("npu0pe0-"), Err(()));
    assert_eq!(CoreType::try_from("npu0pe0_1"), Err(()));
    assert_eq!(CoreType::try_from("npupe0"), Err(()));
    assert_eq!(CoreType::try_from("npu0"), Err(()));
    assert_eq!(CoreType::try_from(""), Err(()));
}

#[test]
fn device_type_from_sysfs_text() {
    assert_eq!(DeviceType::try_from("Warboy\n"), Ok(DeviceType::Warboy));
    assert_eq!(DeviceType::try_from(" Renegade "), Ok(DeviceType::Renegade));
    assert_eq!(DeviceType::try_from("warboy"), Err(()));
    assert_eq!(DeviceType::try_from(""), Err(()));
    assert_eq!(identify_device_type(Some("Warboy\n".to_string())), Some(DeviceType::Warboy));
    assert_eq!(identify_device_type(Some("Unknown".to_string())), None);
    assert_eq!(identify_device_type(None), None);
}

#[test]
fn furiosa_platform_text() {
    assert!(is_furiosa_device(Some("FuriosaAI\n".to_string())));
    assert!(is_furiosa_device(Some("\t FuriosaAI \u{3000}".to_string())));
    assert!(!is_furiosa_device(Some("FuriosaAI Inc".to_string())));
    assert!(!is_furiosa_device(Some("".to_string())));
    assert!(!is_furiosa_device(None));
}

#[test]
fn core_names() {
    let c = Core::new(12, String::new(), CoreType::Fusion(vec![0, 1]), DeviceType::Renegade, CoreStatus::Available);
    assert_eq!(c.name(), "npu12:0-1");
    assert_eq!(c.core_count(), 2);
    assert!(c.is_fusioned());
    let c = Core::new(255, String::new(), CoreType::Single(107), DeviceType::Warboy, CoreStatus::Available);
    assert_eq!(c.name(), "npu255:107");
    let c = Core::new(1, String::new(), CoreType::Fusion(vec![0, 1, 2, 3]), DeviceType::Renegade, CoreStatus::Available);
    assert_eq!(c.name(), "npu1:0-1-2-3");
    assert_eq!(c.core_count(), 4);
}

#[test]
fn canonical_file_name_gives_name() {
    for name in ["npu0pe0", "npu3pe1", "npu10pe2-3", "npu255pe0-1-2-3"] {
        let f = DeviceFile::new(name.to_string(), format!("/dev/{}", name));
        let c = get_core(0, f, DeviceType::Warboy, CoreStatus::Available).unwrap();
        let c = Core::new(name[3..name.find("pe").unwrap()].parse().unwrap(), c.path().to_string(), c.core_type().clone(), c.device_type(), c.status());
        assert_eq!(c.name(), name.replacen("pe", ":", 1));
    }
}

#[test]
fn sysfs_paths() {
    assert_eq!(platform_type_path("/sys", 3), "/sys/class/npu_mgmt/npu3_mgmt/platform_type");
    assert_eq!(device_type_path("tests/sys", 120), "tests/sys/class/npu_mgmt/npu120_mgmt/device_type");
}

#[test]
fn device_map_groups_by_device() {
    let entries = vec![
        file("npu0pe0", "/dev"),
        file("null", "/dev"),
        file("npu1pe0", "/dev"),
        file("npu0pe0-1", "/dev"),
        file("npu0", "/dev"),
        file("npu0pe1", "/dev"),
        file("npu0pe1\n", "/dev"),
        file("npu01pe", "/dev"),
        file("npu_mgmt", "/dev"),
    ];
    let map = build_device_map(entries).unwrap();
    assert_eq!(map.len(), 2);
    let dev0 = map.iter().find(|g| g.idx == 0).unwrap();
    let names0: Vec<&str> = dev0.files.iter().map(|f| f.name.as_str()).collect();
    assert_eq!(names0, vec!["npu0pe0", "npu0pe0-1", "npu0pe1"]);
    assert_eq!(dev0.files[1].path, "/dev/npu0pe0-1");
    let dev1 = map.iter().find(|g| g.idx == 1).unwrap();
    let names1: Vec<&str> = dev1.files.iter().map(|f| f.name.as_str()).collect();
    assert_eq!(names1, vec!["npu1pe0", "npu01pe"]);
}

#[test]
fn device_map_rejects_large_index() {
    let entries = vec![file("npu0pe0", "/dev"), file("npu256pe0", "/dev")];
    assert_eq!(build_device_map(entries).err(), Some(DeviceMapError::IndexOverflow));
    let entries = vec![file("npu255pe0", "/dev")];
    assert_eq!(build_device_map(entries).unwrap()[0].idx, 255);
}

#[test]
fn collect_cores_parses_and_masks() {
    let probes = vec![
        (file("npu2pe0", "/dev"), CoreStatus::Occupied),
        (file("npu2pe1", "/dev"), CoreStatus::Available),
        (file("npu2pe", "/dev"), CoreStatus::Available),
        (file("npu2pe0-1", "/dev"), CoreStatus::Available),
    ];
    let cores = collect_cores(2, DeviceType::Warboy, probes);
    let names: Vec<String> = cores.iter().map(|c| c.name()).collect();
    assert_eq!(names, vec!["npu2:0", "npu2:1", "npu2:0-1"]);
    assert_eq!(statuses(cores), vec![CoreStatus::Occupied, CoreStatus::Available, CoreStatus::Occupied2]);
}

fn sample_cores() -> Vec<Core> {
    vec![
        Core::new(1, "/dev/npu1pe1".to_string(), CoreType::Single(1), DeviceType::Warboy, CoreStatus::Available),
        Core::new(0, "/dev/npu0pe0-1".to_string(), CoreType::Fusion(vec![0, 1]), DeviceType::Warboy, CoreStatus::Available),
        Core::new(1, "/dev/npu1pe0".to_string(), CoreType::Single(0), DeviceType::Warboy, CoreStatus::Occupied),
        Core::new(0, "/dev/npu0pe0".to_string(), CoreType::Single(0), DeviceType::Warboy, CoreStatus::Available),
        Core::new(0, "/dev/npu0pe0".to_string(), CoreType::Single(0), DeviceType::Renegade, CoreStatus::Available),
        Core::new(0, "/dev/npu0pe0".to_string(), CoreType::Fusion(vec![0]), DeviceType::Warboy, CoreStatus::Available),
        Core::new(0, "/dev/npu0pe1".to_string(), CoreType::Single(1), DeviceType::Warboy, CoreStatus::Occupied2),
        Core::new(0, "/dev/npu0pe1".to_string(), CoreType::Single(1), DeviceType::Warboy, CoreStatus::Available),
    ]
}

#[test]
fn sort_matches_derived_order() {
    let sorted = sort_cores(sample_cores());
    let mut expected = sample_cores();
    expected.sort();
    assert_eq!(sorted, expected);
    assert_eq!(sorted[0].path(), "/dev/npu0pe0");
    assert_eq!(sorted[sorted.len() - 1].path(), "/dev/npu1pe1");
}

#[test]
fn listing_does_not_depend_on_discovery_order() {
    let mut a = sample_cores();
    let b = sample_cores();
    a.reverse();
    let (a1, a2) = a.split_at(3);
    let listed_a = list_cores(vec![a1.to_vec(), vec![], a2.to_vec()]);
    let listed_b = list_cores(vec![b]);
    assert_eq!(listed_a, listed_b);
    assert_eq!(list_cores(vec![]), Vec::<Core>::new());
}

#[test]
fn listed_device_types() {
    let s = |t: &str| Some(t.to_string());
    assert_eq!(device_type_to_list(s("FuriosaAI\n"), s("Warboy\n")), Some(Warboy));
    assert_eq!(device_type_to_list(s("FuriosaAI"), s("Renegade")), Some(Renegade));
    assert_eq!(device_type_to_list(s("FuriosaAI"), s("Other")), None);
    assert_eq!(device_type_to_list(s("FuriosaAI"), None), None);
    assert_eq!(device_type_to_list(s("Other"), s("Warboy")), None);
    assert_eq!(device_type_to_list(None, s("Warboy")), None);
}

fn listing_of(entries: Vec<DeviceFile>) -> Vec<Core> {
    let status = |path: &str| if path.ends_with("pe1") { Occupied } else { Available };
    let groups = build_device_map(entries)
        .unwrap()
        .into_iter()
        .map(|g| {
            let device_type = if g.idx == 1 { Renegade } else { Warboy };
            let probes = g
                .files
                .into_iter()
                .map(|f| {
                    let st = status(&f.path);
                    (f, st)
                })
                .collect::<Vec<_>>();
            collect_cores(g.idx, device_type, probes)
        })
        .collect::<Vec<_>>();
    list_cores(groups)
}

#[test]
fn listing_does_not_depend_on_directory_order() {
    let names = ["npu0pe0", "npu1pe1", "npu0pe0-1", "null", "npu1pe0", "npu0pe1", "npu1pe0-1"];
    let forward: Vec<DeviceFile> = names.iter().map(|n| file(n, "/dev")).collect();
    let backward: Vec<DeviceFile> = names.iter().rev().map(|n| file(n, "/dev")).collect();
    let a = listing_of(forward);
    let b = listing_of(backward);
    assert_eq!(a, b);
    let listed: Vec<(String, CoreStatus)> = a.iter().map(|c| (c.name(), c.status())).collect();
    assert_eq!(
        listed,
        vec![
            ("npu0:0".to_string(), Available),
            ("npu0:0-1".to_string(), Occupied2),
            ("npu0:1".to_string(), Occupied),
            ("npu1:0".to_string(), Available),
            ("npu1:0-1".to_string(), Occupied2),
            ("npu1:1".to_string(), Occupied),
        ]
    );
}

#[test]
fn status_from_open_result() {
    assert_eq!(core_status_of_open(true), Available);
    assert_eq!(core_status_of_open(false), Occupied);
}

#[test]
fn file_names_of_paths() {
    let f = |name: &str, path: &str| file_name_matches_path(&DeviceFile::new(name.to_string(), path.to_string()));
    assert!(f("npu0pe0", "/dev/npu0pe0"));
    assert!(f("npu0pe0", "npu0pe0"));
    assert!(f("npu0pe0", "dev//npu0pe0"));
    assert!(!f("npu0pe0", "/dev/npu0pe1"));
    assert!(!f("npu0pe0", "/dev/xnpu0pe0"));
    assert!(!f("npu0pe0", "/dev/npu0pe0/"));
    assert!(!f("", "/dev/"));
    assert!(!f("..", "/dev/.."));
    assert!(!f(".", "."));
    assert!(!f("a/b", "/dev/a/b"));
}

fn probe(idx: u8, platform: Option<&str>, device_type: Option<&str>, names: &[&str]) -> DeviceProbe {
    DeviceProbe {
        idx,
        platform_type: platform.map(|s| s.to_string()),
        device_type: device_type.map(|s| s.to_string()),
        probes: names
            .iter()
            .map(|n| (file(n, "/dev"), if n.ends_with("pe1") { Occupied } else { Available }))
            .collect(),
    }
}

#[test]
fn list_devices_lists_furiosa_devices_of_known_type() {
    let devices = vec![
        probe(2, Some("FuriosaAI\n"), Some("Renegade\n"), &["npu2pe1", "npu2pe0-1", "npu2pe0"]),
        probe(0, Some("FuriosaAI\n"), Some("Warboy\n"), &["npu0pe0"]),
        probe(1, Some("Other\n"), None, &[]),
        probe(3, Some("FuriosaAI\n"), Some("Unknown\n"), &["npu3pe0"]),
        probe(4, None, None, &[]),
    ];
    let listed: Vec<(String, DeviceType, CoreStatus)> = list_devices(devices)
        .iter()
        .map(|c| (c.name(), c.device_type(), c.status()))
        .collect();
    assert_eq!(
        listed,
        vec![
            ("npu0:0".to_string(), Warboy, Available),
            ("npu2:0".to_string(), Renegade, Available),
            ("npu2:0-1".to_string(), Renegade, Occupied2),
            ("npu2:1".to_string(), Renegade, Occupied),
        ]
    );
}
