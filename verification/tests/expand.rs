use svd_blocks::block::locate_regions;
use svd_blocks::convert::{
    convert_svd_cluster, convert_svd_register, expand_svd_cluster, expand_svd_register,
};
use svd_blocks::device::{
    ArrayInfo, Cluster, ClusterInfo, Defaults, Register, RegisterCluster, RegisterInfo,
};
use svd_blocks::error::Error;
use svd_blocks::expand::{
    cluster_size_in_bits, expand, expand_cluster, expand_register, sequential_indexes,
};
use svd_blocks::field::{Field, FieldType, RegisterBlockField};
use svd_blocks::names::SvdConventions;

const STYLE: SvdConventions = SvdConventions;

fn defaults(size: Option<u32>) -> Defaults {
    Defaults { size, reset_value: None, reset_mask: None, access: None }
}

fn info(name: &str, offset: u32, size: Option<u32>) -> RegisterInfo {
    RegisterInfo {
        name: name.to_string(),
        description: format!("about {}", name),
        address_offset: offset,
        size,
        access: None,
        reset_value: None,
        reset_mask: None,
        fields: None,
        write_constraint: None,
        derived_from: None,
    }
}

fn array(dim: u32, dim_increment: u32, dim_index: Option<&[&str]>) -> ArrayInfo {
    ArrayInfo {
        dim,
        dim_increment,
        dim_index: dim_index.map(|list| list.iter().map(|s| s.to_string()).collect()),
    }
}

fn single(name: &str, offset: u32, size: u32) -> RegisterCluster {
    RegisterCluster::Register(Register::Single(info(name, offset, Some(size))))
}

fn cluster_info(name: &str, offset: u32, children: Vec<RegisterCluster>) -> ClusterInfo {
    ClusterInfo {
        name: name.to_string(),
        description: format!("about {}", name),
        address_offset: offset,
        size: None,
        children,
    }
}

fn path(field: &Field) -> String {
    match &field.ty {
        FieldType::Path(name) => name.clone(),
        FieldType::Array(name, len) => format!("[{}; {}]", name, len),
    }
}

fn show(list: &[RegisterBlockField]) -> Vec<(String, String, u32, u32)> {
    list.iter()
        .map(|f| (f.field.ident.clone().unwrap(), path(&f.field), f.offset, f.size))
        .collect()
}

fn row(name: &str, ty: &str, offset: u32, size: u32) -> (String, String, u32, u32) {
    (name.to_string(), ty.to_string(), offset, size)
}

#[test]
fn single_registers_become_one_field() {
    let r = Register::Single(info("Ctrl", 4, Some(16)));
    let f = convert_svd_register(&r, None, &STYLE);
    assert_eq!(f.ident, Some("ctrl".to_string()));
    assert_eq!(path(&f), "CTRL");
    assert_eq!(expand_svd_register(&r, None, &STYLE).len(), 1);
    let list = expand_register(&r, &defaults(None), None, &STYLE).unwrap();
    assert_eq!(show(&list), vec![row("ctrl", "CTRL", 4, 16)]);
    assert_eq!(list[0].description, "about Ctrl");
}

#[test]
fn registers_of_a_cluster_are_named_by_its_module() {
    let r = Register::Single(info("Ctrl", 4, Some(16)));
    assert_eq!(path(&convert_svd_register(&r, Some("ChannelA"), &STYLE)), "self::channel_a::CTRL");
}

#[test]
fn arrays_have_their_length() {
    let r = Register::Array(info("OUT[%s]", 0, Some(32)), array(3, 4, None));
    let f = convert_svd_register(&r, None, &STYLE);
    assert_eq!(f.ident, Some("out".to_string()));
    assert_eq!(path(&f), "[OUT; 3]");
}

#[test]
fn elements_are_named_by_their_index() {
    let r = Register::Array(info("OUT%s", 0, Some(32)), array(2, 4, Some(&["A", "B"])));
    let list = expand_svd_register(&r, Some("M"), &STYLE);
    assert_eq!(list.len(), 2);
    assert_eq!(list[0].ident, Some("outa".to_string()));
    assert_eq!(list[1].ident, Some("outb".to_string()));
    assert_eq!(path(&list[1]), "self::m::OUT");
    let r = Register::Array(info("OUT[%s]_%s", 0, Some(32)), array(2, 4, None));
    let list = expand_svd_register(&r, None, &STYLE);
    assert_eq!(list[1].ident, Some("out1_%s".to_string()));
    assert_eq!(path(&list[1]), "OUT_%S");
}

#[test]
fn sequential_arrays_stay_arrays() {
    let r = Register::Array(info("OUT[%s]", 8, None), array(3, 4, Some(&["0", "01", "+2"])));
    let list = expand_register(&r, &defaults(Some(32)), None, &STYLE).unwrap();
    assert_eq!(show(&list), vec![row("out", "[OUT; 3]", 8, 96)]);
}

#[test]
fn arrays_with_gaps_are_expanded() {
    let r = Register::Array(info("OUT[%s]", 8, Some(16)), array(3, 4, None));
    let list = expand_register(&r, &defaults(Some(32)), None, &STYLE).unwrap();
    assert_eq!(
        show(&list),
        vec![row("out0", "OUT", 8, 16), row("out1", "OUT", 12, 16), row("out2", "OUT", 16, 16)]
    );
}

#[test]
fn arrays_with_other_indexes_are_expanded() {
    let r = Register::Array(info("OUT%s", 0, Some(32)), array(2, 4, Some(&["1", "2"])));
    let list = expand_register(&r, &defaults(None), None, &STYLE).unwrap();
    assert_eq!(show(&list), vec![row("out1", "OUT", 0, 32), row("out2", "OUT", 4, 32)]);
    // One name too few makes one field too few.
    let r = Register::Array(info("OUT%s", 0, Some(32)), array(3, 4, Some(&["0", "1"])));
    let list = expand_register(&r, &defaults(None), None, &STYLE).unwrap();
    assert_eq!(show(&list), vec![row("out0", "OUT", 0, 32), row("out1", "OUT", 4, 32)]);
}

#[test]
fn indexes_from_zero_on_are_sequential() {
    assert!(sequential_indexes(&array(2, 4, None)));
    assert!(sequential_indexes(&array(2, 4, Some(&["0", "1"]))));
    assert!(!sequential_indexes(&array(2, 4, Some(&["1", "0"]))));
    assert!(!sequential_indexes(&array(2, 4, Some(&["0", "1", "2"]))));
    assert!(!sequential_indexes(&array(2, 4, Some(&["A", "B"]))));
    assert!(sequential_indexes(&array(0, 4, Some(&[]))));
}

#[test]
fn registers_need_a_size() {
    let r = Register::Single(info("CTRL", 0, None));
    let e = expand_register(&r, &defaults(None), None, &STYLE).unwrap_err();
    assert_eq!(e.message(), "Register CTRL has no `size` field");
    assert!(matches!(e, Error::RegisterSize(_)));
    assert!(e.cause().is_none());
    let list = expand_register(&r, &defaults(Some(8)), None, &STYLE).unwrap();
    assert_eq!(list[0].size, 8);
}

#[test]
fn a_cluster_ends_with_its_last_child() {
    let inner = Cluster::Single(cluster_info("IN", 16, vec![single("X", 4, 32)]));
    let c = cluster_info(
        "C",
        0,
        vec![single("A", 0, 32), RegisterCluster::Cluster(inner), single("B", 8, 32)],
    );
    // 16 bytes, 4 bytes and 32 bits.
    assert_eq!(cluster_size_in_bits(&c, &defaults(None)).unwrap(), 192);
    assert_eq!(cluster_size_in_bits(&cluster_info("E", 0, vec![]), &defaults(None)).unwrap(), 0);
}

fn size_of(children: Vec<RegisterCluster>) -> u32 {
    cluster_size_in_bits(&cluster_info("C", 0, children), &defaults(None)).unwrap()
}

#[test]
fn a_register_array_ends_with_its_last_element() {
    let sparse = Register::Array(info("OUT%s", 4, Some(16)), array(3, 4, None));
    assert_eq!(size_of(vec![RegisterCluster::Register(sparse)]), 32 + 64 + 16);
    let dense = Register::Array(info("OUT%s", 4, Some(32)), array(3, 4, None));
    assert_eq!(size_of(vec![RegisterCluster::Register(dense)]), 32 + 96);
    let two = Register::Array(info("R[%s]", 0, Some(32)), array(2, 8, None));
    assert_eq!(size_of(vec![RegisterCluster::Register(two)]), 96);
    let named = Register::Array(info("R%s", 0, Some(32)), array(2, 8, Some(&["A", "B", "C"])));
    assert_eq!(size_of(vec![RegisterCluster::Register(named)]), 160);
}

#[test]
fn a_cluster_array_ends_with_its_last_element() {
    let nested = |increment: u32| {
        RegisterCluster::Cluster(Cluster::Array(
            cluster_info("S[%s]", 0, vec![single("R", 0, 32)]),
            array(2, increment, None),
        ))
    };
    assert_eq!(size_of(vec![nested(4)]), 64);
    assert_eq!(size_of(vec![nested(16)]), 160);
    let outer = Cluster::Array(cluster_info("T%s", 4, vec![nested(16)]), array(3, 32, None));
    assert_eq!(size_of(vec![RegisterCluster::Cluster(outer)]), 8 * (4 + 64) + 160);
}

#[test]
fn an_array_without_elements_ends_where_it_starts() {
    let none = Register::Array(info("R%s", 4, Some(32)), array(0, 8, None));
    assert_eq!(size_of(vec![RegisterCluster::Register(none)]), 32);
    let none = Cluster::Array(cluster_info("S%s", 6, vec![single("R", 0, 32)]), array(0, 8, None));
    assert_eq!(size_of(vec![RegisterCluster::Cluster(none)]), 48);
}

#[test]
fn clusters_become_fields() {
    let c = Cluster::Single(cluster_info("CH", 8, vec![single("A", 0, 32), single("B", 4, 32)]));
    let list = expand_cluster(&c, &defaults(None), &STYLE).unwrap();
    assert_eq!(show(&list), vec![row("ch", "CH", 8, 64)]);
    let c = Cluster::Array(
        cluster_info("CH[%s]", 8, vec![single("A", 0, 32), single("B", 4, 32)]),
        array(2, 8, None),
    );
    let list = expand_cluster(&c, &defaults(None), &STYLE).unwrap();
    assert_eq!(show(&list), vec![row("ch", "[CH; 2]", 8, 128)]);
    assert_eq!(path(&convert_svd_cluster(&c, &STYLE)), "[CH; 2]");
    let c = Cluster::Array(
        cluster_info("CH[%s]", 8, vec![single("A", 0, 32), single("B", 4, 32)]),
        array(2, 16, None),
    );
    let list = expand_cluster(&c, &defaults(None), &STYLE).unwrap();
    assert_eq!(show(&list), vec![row("ch0", "CH", 8, 64), row("ch1", "CH", 24, 64)]);
    assert_eq!(expand_svd_cluster(&c, &STYLE).len(), 2);
}

#[test]
fn a_cluster_may_set_its_own_size() {
    let unsized_register = RegisterCluster::Register(Register::Single(info("A", 0, None)));
    let mut i = cluster_info("CH", 8, vec![unsized_register]);
    i.size = Some(256);
    let list = expand_cluster(&Cluster::Single(i), &defaults(None), &STYLE).unwrap();
    assert_eq!(show(&list), vec![row("ch", "CH", 8, 256)]);
}

#[test]
fn clusters_need_a_size() {
    let nameless = RegisterCluster::Register(Register::Single(info("A", 0, None)));
    let c = Cluster::Single(cluster_info("CH", 8, vec![single("B", 0, 8), nameless]));
    let e = expand_cluster(&c, &defaults(None), &STYLE).unwrap_err();
    assert_eq!(e.message(), "Cluster CH has no determinable `size` field");
    assert_eq!(e.cause().unwrap().message(), "Register A has no `size` field");
    assert_eq!(e.clone().message(), e.message());
}

#[test]
fn expansion_is_ordered_by_offset() {
    let cluster = Cluster::Single(cluster_info("CH", 4, vec![single("A", 0, 32)]));
    let list = vec![
        single("LAST", 12, 32),
        RegisterCluster::Cluster(cluster),
        RegisterCluster::Register(Register::Array(info("OUT%s", 0, Some(8)), array(2, 8, None))),
    ];
    let fields = expand(&list, &defaults(None), None, &STYLE).unwrap();
    assert_eq!(
        show(&fields),
        vec![
            row("out0", "OUT", 0, 8),
            row("ch", "CH", 4, 32),
            row("out1", "OUT", 8, 8),
            row("last", "LAST", 12, 32),
        ]
    );
}

#[test]
fn expansion_reports_the_first_error() {
    let list = vec![
        single("FINE", 0, 32),
        RegisterCluster::Register(Register::Single(info("ONE", 4, None))),
        RegisterCluster::Register(Register::Single(info("TWO", 8, None))),
    ];
    let e = expand(&list, &defaults(None), None, &STYLE).unwrap_err();
    assert_eq!(e.message(), "Register ONE has no `size` field");
}

#[test]
fn a_cluster_is_as_large_as_its_block() {
    let children = vec![single("A", 0, 32), single("B", 12, 16), single("C", 4, 64)];
    let fields = expand(&children, &defaults(None), Some("CH"), &STYLE).unwrap();
    let end = locate_regions(&fields).regions.last().unwrap().end;
    assert_eq!(end, 14);
    let c = cluster_info("CH", 0, children);
    assert_eq!(cluster_size_in_bits(&c, &defaults(None)).unwrap(), 8 * end);
}

#[test]
fn plain_indexes_change_nothing() {
    for increment in [4, 8] {
        let plain = Register::Array(info("OUT%s", 0, Some(32)), array(2, increment, None));
        let named =
            Register::Array(info("OUT%s", 0, Some(32)), array(2, increment, Some(&["0", "1"])));
        let a = expand_register(&plain, &defaults(None), None, &STYLE).unwrap();
        let b = expand_register(&named, &defaults(None), None, &STYLE).unwrap();
        assert_eq!(show(&a), show(&b));
    }
}

#[test]
fn an_array_ends_with_its_last_element() {
    let r = Register::Array(info("OUT%s", 8, Some(16)), array(5, 2, None));
    let list = expand_register(&r, &defaults(None), None, &STYLE).unwrap();
    assert_eq!(list[0].offset + list[0].size / 8, 8 + 5 * 2);
}

#[test]
fn the_layout_does_not_depend_on_the_module() {
    let list = vec![single("A", 8, 32), single("B", 0, 16), single("C", 8, 8)];
    let outside = expand(&list, &defaults(None), None, &STYLE).unwrap();
    let inside = expand(&list, &defaults(None), Some("M"), &STYLE).unwrap();
    let places = |list: &[RegisterBlockField]| -> Vec<(u32, u32)> {
        list.iter().map(|f| (f.offset, f.size)).collect()
    };
    assert_eq!(places(&outside), vec![(0, 16), (8, 32), (8, 8)]);
    assert_eq!(places(&inside), places(&outside));
    assert_eq!(path(&inside[0].field), "self::m::B");
}

#[test]
fn a_cluster_with_arrays_is_as_large_as_its_block() {
    let inner = Cluster::Array(
        cluster_info("IN%s", 16, vec![single("X", 0, 16), single("Y", 4, 8)]),
        array(2, 12, None),
    );
    let children = vec![
        RegisterCluster::Register(Register::Array(info("R%s", 0, Some(16)), array(3, 4, None))),
        RegisterCluster::Cluster(inner),
        single("Z", 12, 32),
    ];
    let fields = expand(&children, &defaults(None), Some("CH"), &STYLE).unwrap();
    let end = locate_regions(&fields).regions.last().unwrap().end;
    assert_eq!(end, 16 + 12 + 5);
    assert_eq!(size_of(children), 8 * end);
}

#[test]
fn a_register_ends_with_its_last_field() {
    for increment in [2, 6] {
        let r = Register::Array(info("R%s", 4, Some(16)), array(3, increment, None));
        let fields = expand_register(&r, &defaults(None), None, &STYLE).unwrap();
        let last = fields.iter().map(|f| 8 * f.offset + f.size).max().unwrap();
        assert_eq!(size_of(vec![RegisterCluster::Register(r)]), last);
    }
}
