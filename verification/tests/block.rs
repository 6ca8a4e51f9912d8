use svd_blocks::block::register_or_cluster_block;
use svd_blocks::cluster::{cluster_block, Rendered};
use svd_blocks::device::{
    ArrayInfo, Cluster, ClusterInfo, Defaults, Register, RegisterCluster, RegisterInfo,
};
use svd_blocks::error::Error;
use svd_blocks::fits::{block_in_range, cluster_block_in_range};
use svd_blocks::names::SvdConventions;

const STYLE: SvdConventions = SvdConventions;

const NO_DEFAULTS: Defaults =
    Defaults { size: None, reset_value: None, reset_mask: None, access: None };

fn info(name: &str, description: &str, offset: u32, size: Option<u32>) -> RegisterInfo {
    RegisterInfo {
        name: name.to_string(),
        description: description.to_string(),
        address_offset: offset,
        size,
        access: None,
        reset_value: None,
        reset_mask: None,
        fields: None,
        write_constraint: None,
        derived_from: None,
    }
}

fn single(name: &str, description: &str, offset: u32, size: u32) -> RegisterCluster {
    RegisterCluster::Register(Register::Single(info(name, description, offset, Some(size))))
}

fn cluster_info(name: &str, offset: u32, children: Vec<RegisterCluster>) -> ClusterInfo {
    ClusterInfo {
        name: name.to_string(),
        description: "A\n cluster".to_string(),
        address_offset: offset,
        size: None,
        children,
    }
}

fn tokens(text: &str) -> quote::Tokens {
    let mut t = quote::Tokens::new();
    t.append(text);
    t
}

fn block(list: Vec<RegisterCluster>, name: Option<&str>) -> String {
    assert!(block_in_range(&list, &NO_DEFAULTS, name, &STYLE));
    let t = register_or_cluster_block(&list, &NO_DEFAULTS, name, &STYLE).unwrap();
    t.as_str().to_string()
}

#[test]
fn a_block_of_registers() {
    let text = block(vec![single("CR", "Control", 0, 32), single("SR", "Status", 4, 16)], None);
    assert_eq!(
        text,
        "# [ doc = r\" Register block\" ] # [ repr ( C ) ] pub struct RegisterBlock { \
         # [ doc = \"0x00 - Control\" ] pub cr : CR , \
         # [ doc = \"0x04 - Status\" ] pub sr : SR , }"
    );
}

#[test]
fn gaps_are_filled() {
    let text = block(vec![single("CR", "Control", 0, 8), single("SR", "Status", 300, 16)], None);
    assert_eq!(
        text,
        "# [ doc = r\" Register block\" ] # [ repr ( C ) ] pub struct RegisterBlock { \
         # [ doc = \"0x00 - Control\" ] pub cr : CR , \
         _reserved1 : [ u8 ; 299usize ] , \
         # [ doc = \"0x12c - Status\" ] pub sr : SR , }"
    );
}

#[test]
fn nothing_is_put_before_the_first_register() {
    let text = block(vec![single("CR", "Control", 16, 8)], Some("Chan"));
    assert_eq!(
        text,
        "# [ doc = r\" Register block\" ] # [ repr ( C ) ] pub struct CHAN { \
         # [ doc = \"0x10 - Control\" ] pub cr : self::chan::CR , }"
    );
}

#[test]
fn arrays_are_written_with_their_length() {
    let list = vec![RegisterCluster::Register(Register::Array(
        info("OUT[%s]", "Output", 0, Some(32)),
        ArrayInfo { dim: 4, dim_increment: 4, dim_index: None },
    ))];
    assert_eq!(
        block(list, None),
        "# [ doc = r\" Register block\" ] # [ repr ( C ) ] pub struct RegisterBlock { \
         # [ doc = \"0x00 - Output\" ] pub out : [ OUT ; 4 ] , }"
    );
}

#[test]
fn descriptions_are_escaped() {
    let text = block(vec![single("CR", "Say \"\u{b5}s\" \\ it's", 0, 32)], None);
    assert_eq!(
        text,
        "# [ doc = r\" Register block\" ] # [ repr ( C ) ] pub struct RegisterBlock { \
         # [ doc = \"0x00 - Say \\\"\\u{b5}s\\\" \\\\ it's\" ] pub cr : CR , }"
    );
}

#[test]
fn overlapping_registers_make_a_union() {
    let text = block(
        vec![
            single("DATA32", "Data", 0, 32),
            single("DATA8", "Data", 0, 8),
            single("SR", "Status", 4, 32),
        ],
        None,
    );
    assert_eq!(
        text,
        "# [ doc = r\" Register block\" ] # [ repr ( C ) ] pub struct RegisterBlock { \
         # [ doc = \"Data\" ] pub data : data_union , \
         # [ doc = \"0x04 - Status\" ] pub sr : SR , } \
         # [ doc = \"Data\" ] # [ repr ( C ) ] pub union data_union { \
         # [ doc = \"0x00 - Data\" ] pub data8 : DATA8 , \
         # [ doc = \"0x00 - Data\" ] pub data32 : DATA32 , }"
    );
}

#[test]
fn unions_without_a_common_name_are_numbered() {
    let text = block(
        vec![
            single("SR", "Status", 0, 32),
            single("TX", "Send", 8, 32),
            single("RX", "Receive", 8, 32),
        ],
        None,
    );
    assert_eq!(
        text,
        "# [ doc = r\" Register block\" ] # [ repr ( C ) ] pub struct RegisterBlock { \
         # [ doc = \"0x00 - Status\" ] pub sr : SR , \
         _reserved1 : [ u8 ; 4usize ] , \
         # [ doc = \"Receive Send\" ] pub u1 : u1 , } \
         # [ doc = \"Receive Send\" ] # [ repr ( C ) ] pub union u1 { \
         # [ doc = \"0x08 - Receive\" ] pub rx : RX , \
         # [ doc = \"0x08 - Send\" ] pub tx : TX , }"
    );
}

#[test]
fn a_block_of_one_region_is_a_union_itself() {
    let text = block(vec![single("TX", "Send", 0, 32), single("RX", "Receive", 2, 16)], None);
    assert_eq!(
        text,
        "# [ doc = r\" Register block\" ] # [ repr ( C ) ] pub union RegisterBlock { \
         # [ doc = \"0x00 - Send\" ] pub tx : TX , \
         # [ doc = \"0x02 - Receive\" ] pub rx : RX , }"
    );
}

#[test]
fn an_empty_block_has_no_fields() {
    assert_eq!(
        block(vec![], None),
        "# [ doc = r\" Register block\" ] # [ repr ( C ) ] pub struct RegisterBlock { }"
    );
}

#[test]
fn what_does_not_fit_is_told() {
    // Behind the address space.
    let list = vec![single("CR", "Control", u32::MAX, 32)];
    assert!(!block_in_range(&list, &NO_DEFAULTS, None, &STYLE));
    // A register without bytes, within another one.
    let list = vec![single("CR", "Control", 0, 32), single("ZR", "Zero", 2, 4)];
    assert!(!block_in_range(&list, &NO_DEFAULTS, None, &STYLE));
    // A register without bytes, where another one starts.
    let list = vec![single("CR", "Control", 0, 32), single("ZR", "Zero", 0, 4)];
    assert!(!block_in_range(&list, &NO_DEFAULTS, None, &STYLE));
    // An array that is too long.
    let list = vec![RegisterCluster::Register(Register::Array(
        info("OUT[%s]", "Output", 0, Some(32)),
        ArrayInfo { dim: 0x1000_0000, dim_increment: 4, dim_index: None },
    ))];
    assert!(!block_in_range(&list, &NO_DEFAULTS, None, &STYLE));
    // A cluster whose child starts too far behind.
    let far = Cluster::Single(cluster_info("CH", 0, vec![single("CR", "C", 0x2000_0000, 8)]));
    let list = vec![RegisterCluster::Cluster(far)];
    assert!(!block_in_range(&list, &NO_DEFAULTS, None, &STYLE));
    // A cluster whose array ends too far behind.
    let sparse = RegisterCluster::Register(Register::Array(
        info("OUT%s", "Output", 0, Some(8)),
        ArrayInfo { dim: 3, dim_increment: 0x1000_0000, dim_index: None },
    ));
    let list = vec![RegisterCluster::Cluster(Cluster::Single(cluster_info("CH", 0, vec![sparse])))];
    assert!(!block_in_range(&list, &NO_DEFAULTS, None, &STYLE));
    // What stands behind an error does not matter.
    let list = vec![
        RegisterCluster::Register(Register::Single(info("XR", "X", 0, None))),
        single("CR", "Control", u32::MAX, 32),
    ];
    assert!(block_in_range(&list, &NO_DEFAULTS, None, &STYLE));
    let e = register_or_cluster_block(&list, &NO_DEFAULTS, None, &STYLE).unwrap_err();
    assert_eq!(e.message(), "Register XR has no `size` field");
}

fn nested() -> Cluster {
    let inner = Cluster::Single(cluster_info("IN", 4, vec![single("X", "Inner", 0, 32)]));
    Cluster::Array(
        cluster_info(
            "CH[%s]",
            0,
            vec![RegisterCluster::Cluster(inner), single("A", "Outer", 0, 32)],
        ),
        ArrayInfo { dim: 2, dim_increment: 8, dim_index: None },
    )
}

#[test]
fn a_cluster_is_a_block_and_a_module() {
    let c = nested();
    let rendered: Vec<Rendered> = vec![
        vec![],
        vec![Ok(vec![tokens("pub struct A ;"), tokens("pub mod a { }")])],
        vec![Ok(vec![tokens("pub struct X ;")])],
    ];
    assert!(cluster_block_in_range(&c, &NO_DEFAULTS, &rendered, 1, &STYLE));
    let (t, next) = cluster_block(&c, &NO_DEFAULTS, &rendered, 1, &STYLE).unwrap();
    assert_eq!(next, 3);
    assert_eq!(
        t.as_str(),
        "# [ doc = r\" Register block\" ] # [ repr ( C ) ] pub struct CH { \
         # [ doc = \"0x00 - Outer\" ] pub a : self::ch::A , \
         # [ doc = \"0x04 - A cluster\" ] pub in_ : IN , } \
         # [ doc = r\" Register block\" ] # [ doc = \"A cluster\" ] pub mod ch { \
         pub struct A ; pub mod a { } \
         # [ doc = r\" Register block\" ] # [ repr ( C ) ] pub struct IN { \
         # [ doc = \"0x00 - Inner\" ] pub x : self::in_::X , } \
         # [ doc = r\" Register block\" ] # [ doc = \"A cluster\" ] pub mod in_ { \
         pub struct X ; } }"
    );
}

#[test]
fn a_cluster_reports_what_stopped_its_registers() {
    let c = nested();
    let rendered: Vec<Rendered> = vec![
        vec![Ok(vec![tokens("pub struct A ;")])],
        vec![Err(Error::Register("no access".to_string()))],
    ];
    assert!(cluster_block_in_range(&c, &NO_DEFAULTS, &rendered, 0, &STYLE));
    let e = cluster_block(&c, &NO_DEFAULTS, &rendered, 0, &STYLE).unwrap_err();
    assert_eq!(e.message(), "no access");
}

fn sparse_cluster() -> RegisterCluster {
    let sparse = RegisterCluster::Register(Register::Array(
        info("R%s", "Sparse", 0, Some(32)),
        ArrayInfo { dim: 2, dim_increment: 8, dim_index: None },
    ));
    RegisterCluster::Cluster(Cluster::Single(cluster_info("CH", 0, vec![sparse])))
}

#[test]
fn a_cluster_with_gaps_needs_no_padding_behind_it() {
    assert_eq!(
        block(vec![sparse_cluster(), single("SR", "Status", 12, 32)], None),
        "# [ doc = r\" Register block\" ] # [ repr ( C ) ] pub struct RegisterBlock { \
         # [ doc = \"0x00 - A cluster\" ] pub ch : CH , \
         # [ doc = \"0x0c - Status\" ] pub sr : SR , }"
    );
}

#[test]
fn a_register_within_a_cluster_makes_a_union() {
    assert_eq!(
        block(vec![sparse_cluster(), single("SR", "Status", 8, 32)], None),
        "# [ doc = r\" Register block\" ] # [ repr ( C ) ] pub union RegisterBlock { \
         # [ doc = \"0x00 - A cluster\" ] pub ch : CH , \
         # [ doc = \"0x08 - Status\" ] pub sr : SR , }"
    );
}
